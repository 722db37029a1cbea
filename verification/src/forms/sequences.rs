//! Expressions with separators between them.

use crate::ast::AstNodeView;
use crate::error::ParserError;
use crate::forms::blocks;
use crate::grammar;
use crate::grouping;
use crate::node::{AstIndex, NodeView};
use crate::parts::{self, Part};
use crate::script::{Script, State};
use crate::token::Token;
use vstd::prelude::*;

verus! {

broadcast use crate::script::group_places;

// Items

/// Whether a node takes in the expressions before it.
pub open spec fn takes_others(node: NodeView) -> bool {
    match node {
        NodeView::Assign { .. }
        | NodeView::MultiAssign { .. }
        | NodeView::For(_)
        | NodeView::While { .. }
        | NodeView::Until { .. } => true,
        _ => false,
    }
}

/// Whether a part is an expression that does not take in the expressions before it.
#[verifier::opaque]
pub open spec fn is_item(e: Script, part: Part) -> bool {
    &&& part.is_expression(e, 0)
    &&& forall|s: State, lhs: Seq<AstIndex>|
        part.fits(s) ==> part.is_read(s, #[trigger] grammar::expression(e, s, lhs, 0))
    &&& forall|s: State|
        part.fits(s) ==> {
            let (s1, node) = #[trigger] (part.read)(s);
            !takes_others(s1.nodes[node as int].node)
        }
}

proof fn lemma_is_item(e: Script, part: Part, s: State, lhs: Seq<AstIndex>)
    requires
        is_item(e, part),
    ensures
        part.is_expression(e, 0),
        part.is_sound(e),
        0 <= part.from < part.to <= e.tokens.len(),
        part.fits(s) ==> {
            let (s1, node) = (part.read)(s);
            &&& part.is_read(s, grammar::expression(e, s, lhs, 0))
            &&& part.leads_on(s)
            &&& !takes_others(s1.nodes[node as int].node)
        },
{
    reveal(is_item);
    parts::lemma_is_expression(e, part, 0, s);
}

/// Behind operands without an assignment or a loop, only the last of them matters.
proof fn lemma_only_last(e: Script, s: State, lhs: Seq<AstIndex>, min_precedence: u8)
    requires
        lhs.len() > 0,
        0 <= s.at,
        grouping::ends_expression(e, s.at) || (grammar::is_operator(
            e.token_at(grouping::operator_place(e, s.at)),
        ) && grouping::is_gap(e, grouping::operator_place(e, s.at) + 1)),
    ensures
        grammar::continued(e, s, lhs, min_precedence) == grammar::continued(
            e,
            s,
            seq![lhs.last()],
            min_precedence,
        ),
    decreases e.left(s),
{
    reveal(grammar::continued);
    let s1 = e.spaced(s);
    assert(e.spaced(s1) == s1);
    if s1.at != grouping::operator_place(e, s.at) {
        let s2 = e.filled(s1);
        assert(e.spaced(s2) == s2);
        assert(e.skip_fillers(s1.at) == e.skip_fillers(s1.at + 1));
        grouping::lemma_operator_place(e, s.at);
        lemma_only_last(e, s2, lhs, min_precedence);
    }
}

/// An operand, or a chain of them, is an item where it has a node of its own.
pub proof fn law_item(e: Script, part: Part, operand: Part)
    requires
        part.is_expression(e, 0),
        operand.is_operand(e, true),
        part.from == operand.from,
        operand.size <= part.size,
        !grammar::is_range(e.token_at(operand.to)),
        parts::is_on_line(e, operand) ==> grouping::ends_expression(e, operand.to) || (
        grammar::is_operator(e.token_at(grouping::operator_place(e, operand.to)))
            && grouping::is_gap(e, grouping::operator_place(e, operand.to) + 1)),
        forall|s: State|
            part.fits(s) ==> {
                let (s1, node) = #[trigger] (part.read)(s);
                !takes_others(s1.nodes[node as int].node)
            },
    ensures
        is_item(e, part),
{
    reveal(is_item);
    assert forall|s: State, lhs: Seq<AstIndex>| part.fits(s) implies part.is_read(
        s,
        #[trigger] grammar::expression(e, s, lhs, 0),
    ) by {
        parts::lemma_is_expression(e, part, 0, s);
        parts::lemma_is_operand(e, operand, true, s);
        let (s1, start) = (operand.read)(s);
        parts::lemma_expression_start(e, s, lhs, 0, s1, start);
        parts::lemma_expression_start(e, s, Seq::empty(), 0, s1, start);
        if parts::is_on_line(e, operand) {
            lemma_only_last(e, s1, lhs.push(start), 0);
            lemma_only_last(e, s1, Seq::<AstIndex>::empty().push(start), 0);
        }
    }
}

// Sequences

/// The separator behind an item, or the place behind the last one.
pub open spec fn behind_item(e: Script, item: Part) -> int {
    e.skip_spaces(item.to)
}

/// Whether an item stands behind a separator: on the line of the separator, or on the next line, at
/// the given indentation, which is further than that of the line before.
pub open spec fn is_separated(
    e: Script,
    separator: int,
    item: Part,
    current_indent: usize,
    indent: usize,
) -> bool {
    let next = e.skip_spaces(separator + 1);
    &&& e.token_at(separator) == Some(Token::Separator)
    &&& if e.token_at(next) == Some(Token::NewLineIndented) {
        &&& item.from == e.skip_fillers(next)
        &&& e.tokens[item.from].indent == indent
        &&& indent > current_indent
    } else {
        item.from == next
    }
}

/// Whether the `k`th item stands behind the separator that follows the one before.
pub open spec fn is_next_item(
    e: Script,
    at: int,
    items: Seq<Part>,
    current_indent: usize,
    indent: usize,
    k: int,
) -> bool {
    &&& is_item(e, items[k])
    &&& if k == 0 {
        items[k].starts_behind(e, at)
    } else {
        is_separated(e, behind_item(e, items[k - 1]), items[k], current_indent, indent)
    }
    &&& e.token_at(items[k].from) != Some(Token::NewLineIndented)
}

/// Whether items stand from a place on, with separators between them. Where they go on over several
/// lines, these are indented alike, and further than the first line.
pub open spec fn are_in_order(
    e: Script,
    at: int,
    items: Seq<Part>,
    current_indent: usize,
    indent: usize,
) -> bool {
    &&& 0 <= at
    &&& items.len() > 0
    &&& forall|k: int|
        0 <= k < items.len() ==> #[trigger] is_next_item(e, at, items, current_indent, indent, k)
}

/// Whether items stand from a place on, and no separator follows them.
pub open spec fn are_items(
    e: Script,
    at: int,
    items: Seq<Part>,
    current_indent: usize,
    indent: usize,
) -> bool {
    &&& are_in_order(e, at, items, current_indent, indent)
    &&& e.token_at(behind_item(e, items.last())) != Some(Token::Separator)
}

/// The state behind items, and the node of one or the list of several in order.
pub open spec fn read_items(e: Script, items: Seq<Part>, s: State) -> (State, AstIndex) {
    let (s1, nodes) = parts::read_all(items, s);
    let s2 = s1.moved(behind_item(e, items.last()));
    if items.len() == 1 {
        (s2, nodes[0])
    } else {
        e.add_node(s2, NodeView::Expressions(nodes))->Ok_0
    }
}

/// Items with separators between them.
pub open spec fn sequence_part(e: Script, at: int, items: Seq<Part>) -> Part {
    Part {
        from: at,
        to: behind_item(e, items.last()),
        read: |s: State| read_items(e, items, s),
        size: parts::total_size(items) + 1,
    }
}

pub(crate) proof fn lemma_items_sound(
    e: Script,
    at: int,
    items: Seq<Part>,
    current_indent: usize,
    indent: usize,
)
    requires
        are_in_order(e, at, items, current_indent, indent),
    ensures
        parts::are_sound(e, at, items),
        at < items.last().to <= behind_item(e, items.last()) <= e.tokens.len(),
{
    assert forall|k: int| 0 <= k < items.len() implies (#[trigger] items[k]).is_sound(e) by {
        assert(is_next_item(e, at, items, current_indent, indent, k));
        lemma_is_item(e, items[k], arbitrary(), Seq::empty());
    }
    assert forall|k: int| 0 <= k < items.len() implies #[trigger] parts::follows(at, items, k) by {
        assert(is_next_item(e, at, items, current_indent, indent, k));
    }
    lemma_item_order(e, at, items, current_indent, indent, items.len() - 1);
    parts::lemma_places(e, items[items.len() - 1]);
}

proof fn lemma_item_order(
    e: Script,
    at: int,
    items: Seq<Part>,
    current_indent: usize,
    indent: usize,
    k: int,
)
    requires
        are_in_order(e, at, items, current_indent, indent),
        0 <= k < items.len(),
    ensures
        at < items[k].to,
    decreases k,
{
    assert(is_next_item(e, at, items, current_indent, indent, k));
    lemma_is_item(e, items[k], arbitrary(), Seq::empty());
    if k > 0 {
        lemma_item_order(e, at, items, current_indent, indent, k - 1);
    }
}

/// Whether an indentation is expected of the lines behind the first, if one is expected.
spec fn is_expected(expected_indent: Option<usize>, indent: usize) -> bool {
    expected_indent is None || expected_indent == Some(indent)
}

/// An item is read behind others.
proof fn lemma_one_more(
    e: Script,
    item: Part,
    s: State,
    current_indent: usize,
    expected_indent: Option<usize>,
    nodes: Seq<AstIndex>,
)
    requires
        is_item(e, item),
        item.fits(s),
    ensures
        ({
            let (s1, node) = (item.read)(s);
            grammar::next_expression(e, s, current_indent, expected_indent, nodes)
                == grammar::expressions_from(
                e,
                s1,
                current_indent,
                expected_indent,
                nodes.push(node),
            )
        }),
{
    lemma_is_item(e, item, s, nodes);
    reveal(grammar::next_expression);
    reveal(grammar::expressions_from);
}

/// A separator leads to the next item.
proof fn lemma_separator(
    e: Script,
    item: Part,
    s: State,
    current_indent: usize,
    expected_indent: Option<usize>,
    indent: usize,
    nodes: Seq<AstIndex>,
) -> (next: Option<usize>)
    requires
        0 <= s.at,
        is_separated(e, e.skip_spaces(s.at), item, current_indent, indent),
        0 <= item.from < e.tokens.len(),
        is_expected(expected_indent, indent),
    ensures
        is_expected(next, indent),
        grammar::expressions_from(e, s, current_indent, expected_indent, nodes)
            == grammar::next_expression(e, s.moved(item.from), current_indent, next, nodes),
{
    reveal(grammar::expressions_from);
    reveal(grammar::next_expression);
    let s1 = e.spaced(s);
    let s2 = e.spaced(e.taken(s1));
    if e.next(s2) == Some(Token::NewLineIndented) {
        assert(e.filled(s2) == s.moved(item.from));
        Some(indent)
    } else {
        assert(s2 == s.moved(item.from));
        expected_indent
    }
}

/// Items are read in their order, up to the last.
proof fn lemma_items_from(
    e: Script,
    at: int,
    items: Seq<Part>,
    s: State,
    k: int,
    current_indent: usize,
    expected_indent: Option<usize>,
    indent: usize,
)
    requires
        are_items(e, at, items, current_indent, indent),
        parts::is_ready(s),
        s.at == at,
        s.nodes.len() + parts::total_size(items) + 1 <= u32::MAX + 1,
        1 <= k <= items.len(),
        is_expected(expected_indent, indent),
    ensures
        ({
            let (s1, nodes) = parts::read_all(items.take(k), s);
            grammar::expressions_from(e, s1, current_indent, expected_indent, nodes)
                == Ok::<_, ParserError>(read_items(e, items, s))
        }),
    decreases items.len() - k,
{
    lemma_items_sound(e, at, items, current_indent, indent);
    parts::lemma_next_part(e, at, items, s, k);
    let (s1, nodes) = parts::read_all(items.take(k), s);
    parts::lemma_goes_on(s, s1);
    parts::lemma_ready(s1);
    if k < items.len() {
        assert(is_next_item(e, at, items, current_indent, indent, k));
        parts::lemma_places(e, items[k]);
        lemma_is_item(e, items[k], arbitrary(), Seq::empty());
        let next = lemma_separator(
            e,
            items[k],
            s1,
            current_indent,
            expected_indent,
            indent,
            nodes,
        );
        lemma_one_more(e, items[k], s1.moved(items[k].from), current_indent, next, nodes);
        lemma_items_from(e, at, items, s, k + 1, current_indent, next, indent);
    } else {
        assert(items.take(k) =~= items);
        lemma_items_end(e, s1, nodes, current_indent, expected_indent);
        assert(e.spaced(s1) == s1.moved(behind_item(e, items.last())));
    }
}

proof fn lemma_items_end(
    e: Script,
    s: State,
    nodes: Seq<AstIndex>,
    current_indent: usize,
    expected_indent: Option<usize>,
)
    requires
        e.token_at(e.skip_spaces(s.at)) != Some(Token::Separator),
    ensures
        grammar::expressions_from(e, s, current_indent, expected_indent, nodes) == if nodes.len()
            == 1 {
            Ok((e.spaced(s), nodes[0]))
        } else {
            e.add_node(e.spaced(s), NodeView::Expressions(nodes))
        },
{
    reveal(grammar::expressions_from);
}

/// The first item is read, wherever the spaces before it are taken.
proof fn lemma_first_item(
    e: Script,
    at: int,
    items: Seq<Part>,
    s: State,
    from: State,
    current_indent: usize,
    expected_indent: Option<usize>,
    indent: usize,
)
    requires
        are_items(e, at, items, current_indent, indent),
        parts::is_ready(s),
        s.at == at,
        s.nodes.len() + parts::total_size(items) + 1 <= u32::MAX + 1,
        from == s || from == s.moved(items[0].from),
        is_expected(expected_indent, indent),
    ensures
        ({
            let (s1, node) = read_items(e, items, s);
            grammar::expressions_at(e, from, current_indent, expected_indent) == Ok::<
                _,
                ParserError,
            >((s1, Some(node)))
        }),
{
    lemma_items_sound(e, at, items, current_indent, indent);
    lemma_items_from(e, at, items, s, 1, current_indent, expected_indent, indent);
    parts::lemma_next_part(e, at, items, s, 0);
    assert(items.take(0) =~= Seq::empty());
    assert(is_next_item(e, at, items, current_indent, indent, 0));
    parts::lemma_ready(s);
    let s1 = s.moved(items[0].from);
    lemma_is_item(e, items[0], s1, Seq::empty());
    assert(e.spaced(s) == s1);
    parts::lemma_expression_behind_spaces(e, s, Seq::empty(), 0);
    let (s2, node) = (items[0].read)(s1);
    parts::lemma_goes_on(s1, s2);
    assert(Seq::<AstIndex>::empty().push(node) =~= seq![node]);
    reveal(grammar::expressions_at);
    reveal(grammar::expressions_from);
}

proof fn lemma_items_leads_on(
    e: Script,
    at: int,
    items: Seq<Part>,
    current_indent: usize,
    indent: usize,
    s: State,
)
    requires
        are_items(e, at, items, current_indent, indent),
        sequence_part(e, at, items).fits(s),
    ensures
        sequence_part(e, at, items).leads_on(s),
        read_items(e, items, s).1 < read_items(e, items, s).0.nodes.len(),
{
    lemma_items_sound(e, at, items, current_indent, indent);
    parts::lemma_read_all(e, at, items, s);
    let (s1, nodes) = parts::read_all(items, s);
    parts::lemma_goes_on(s, s1);
    let end = behind_item(e, items.last());
    parts::lemma_moved(s1, end);
    parts::lemma_goes_on_trans(s, s1, s1.moved(end));
    if items.len() == 1 {
        parts::lemma_next_part(e, at, items, s, 0);
        assert(items.take(0) =~= Seq::empty());
        assert(items.take(1) =~= items);
        assert(is_next_item(e, at, items, current_indent, indent, 0));
        lemma_is_item(e, items[0], s.moved(items[0].from), Seq::empty());
    } else {
        let made = AstNodeView {
            node: NodeView::Expressions(nodes),
            span: e.span(s1.moved(end)),
        };
        parts::lemma_pushed(s1.moved(end), made);
        parts::lemma_goes_on_trans(s, s1.moved(end), read_items(e, items, s).0);
    }
}

/// Expressions with separators between them are a list of their nodes in their order, over any
/// number of lines; one without a separator is itself.
pub proof fn law_sequence(e: Script, at: int, items: Seq<Part>, indent: usize)
    requires
        are_items(e, at, items, blocks::indent_before(e, at), indent),
    ensures
        sequence_part(e, at, items).is_sequence(e),
        sequence_part(e, at, items).is_value(e),
{
    reveal(Part::is_sound);
    reveal(Part::is_sequence);
    reveal(Part::is_value);
    let whole = sequence_part(e, at, items);
    let current_indent = blocks::indent_before(e, at);
    lemma_items_sound(e, at, items, current_indent, indent);
    assert forall|s: State| whole.fits(s) implies {
        let read = #[trigger] (whole.read)(s);
        &&& whole.leads_on(s)
        &&& whole.is_read(s, grammar::expressions(e, s, false))
        &&& whole.is_read(s, grammar::expressions(e, s, true))
    } by {
        lemma_items_leads_on(e, at, items, current_indent, indent, s);
        lemma_first_item(e, at, items, s, s, current_indent, None, indent);
        assert(is_next_item(e, at, items, current_indent, indent, 0));
        let s1 = s.moved(items[0].from);
        lemma_first_item(e, at, items, s, s1, current_indent, None, indent);
        assert(e.spaced(s) == s1);
        reveal(grammar::expressions);
        reveal(grammar::expressions_at);
    }
}

/// Expressions that start on the next line.
pub open spec fn next_line_part(e: Script, at: int, items: Seq<Part>) -> Part {
    Part {
        from: at,
        to: behind_item(e, items.last()),
        read: |s: State| read_items(e, items, s.moved(items[0].from)),
        size: parts::total_size(items) + 1,
    }
}

/// A value may start on the next line, indented further than the line before.
pub proof fn law_value_on_next_line(e: Script, at: int, items: Seq<Part>)
    requires
        0 <= at,
        items.len() > 0,
        e.token_at(e.skip_spaces(at)) == Some(Token::NewLineIndented),
        items[0].from == e.skip_fillers(at),
        blocks::indent_before(e, items[0].from) > blocks::indent_before(e, at),
        are_items(
            e,
            items[0].from,
            items,
            blocks::indent_before(e, at),
            blocks::indent_before(e, items[0].from),
        ),
        !(e.token_at(items[0].from) == Some(Token::Id) && e.token_at(items[0].from + 1) == Some(
            Token::Colon,
        )),
    ensures
        next_line_part(e, at, items).is_value(e),
{
    reveal(Part::is_sound);
    reveal(Part::is_value);
    let whole = next_line_part(e, at, items);
    let current_indent = blocks::indent_before(e, at);
    let start = items[0].from;
    let indent = blocks::indent_before(e, start);
    lemma_items_sound(e, start, items, current_indent, indent);
    assert forall|s: State| whole.fits(s) implies {
        let read = #[trigger] (whole.read)(s);
        &&& whole.leads_on(s)
        &&& whole.is_read(s, grammar::expressions(e, s, true))
    } by {
        let s1 = s.moved(start);
        parts::lemma_moved(s, start);
        lemma_items_leads_on(e, start, items, current_indent, indent, s1);
        parts::lemma_goes_on_trans(s, s1, read_items(e, items, s1).0);
        lemma_first_item(e, start, items, s1, s1, current_indent, Some(indent), indent);
        blocks::lemma_fillers_behind_spaces(e, at);
        assert(e.skip_fillers(e.skip_spaces(at)) == e.skip_fillers(at)) by {
            reveal_with_fuel(Script::skip_fillers, 2);
        }
        assert(e.filled(e.spaced(s)) == s1);
        assert(e.filled(s1) == s1);
        reveal(grammar::expressions);
        reveal(grammar::expressions_at);
        reveal(grammar::map_block);
        reveal(grammar::map_block_at);
    }
}

// One expression

/// An expression by itself, with the spaces around it.
pub open spec fn alone_part(e: Script, at: int, part: Part) -> Part {
    let to = e.skip_spaces(part.to);
    Part {
        from: at,
        to,
        read: |s: State|
            {
                let (s1, node) = (part.read)(s.moved(part.from));
                (s1.moved(to), node)
            },
        size: part.size,
    }
}

/// An expression without a separator behind it is itself, whether it is an assignment, a loop or
/// anything else.
pub proof fn law_alone(e: Script, at: int, part: Part)
    requires
        0 <= at,
        part.is_expression(e, 0),
        part.starts_behind(e, at),
        e.token_at(part.from) != Some(Token::NewLineIndented),
        e.token_at(e.skip_spaces(part.to)) != Some(Token::Separator),
    ensures
        alone_part(e, at, part).is_sequence(e),
        alone_part(e, at, part).is_value(e),
{
    reveal(Part::is_sound);
    reveal(Part::is_sequence);
    reveal(Part::is_value);
    let whole = alone_part(e, at, part);
    parts::lemma_is_expression(e, part, 0, arbitrary());
    assert forall|s: State| whole.fits(s) implies {
        let read = #[trigger] (whole.read)(s);
        &&& whole.leads_on(s)
        &&& whole.is_read(s, grammar::expressions(e, s, false))
        &&& whole.is_read(s, grammar::expressions(e, s, true))
    } by {
        let s1 = s.moved(part.from);
        parts::lemma_moved(s, part.from);
        assert(e.spaced(s) == s1);
        parts::lemma_is_expression(e, part, 0, s1);
        parts::lemma_expression_behind_spaces(e, s, Seq::empty(), 0);
        let (s2, node) = (part.read)(s1);
        parts::lemma_goes_on(s1, s2);
        parts::lemma_moved(s2, whole.to);
        parts::lemma_goes_on_trans(s, s1, s2);
        parts::lemma_goes_on_trans(s, s2, s2.moved(whole.to));
        lemma_items_end(e, s2, seq![node], e.indent(s), None);
        assert(e.spaced(s2) == s2.moved(whole.to));
        assert(grammar::expressions_at(e, s, e.indent(s), None) == Ok::<_, ParserError>(
            (s2.moved(whole.to), Some(node)),
        ) && grammar::expressions_at(e, s1, e.indent(s), None) == Ok::<_, ParserError>(
            (s2.moved(whole.to), Some(node)),
        )) by {
            reveal(grammar::expressions_at);
            reveal(grammar::expressions_from);
        }
        reveal(grammar::expressions);
        reveal(grammar::expressions_at);
    }
}

// What takes in the expressions before it

/// Items that have been read lead to what follows them.
proof fn lemma_items_before(
    e: Script,
    at: int,
    items: Seq<Part>,
    s: State,
    k: int,
    current_indent: usize,
    expected_indent: Option<usize>,
    indent: usize,
) -> (last: Option<usize>)
    requires
        are_in_order(e, at, items, current_indent, indent),
        parts::is_ready(s),
        s.at == at,
        s.nodes.len() + parts::total_size(items) <= u32::MAX + 1,
        1 <= k <= items.len(),
        is_expected(expected_indent, indent),
    ensures
        is_expected(last, indent),
        ({
            let (s1, nodes) = parts::read_all(items.take(k), s);
            let (s2, all) = parts::read_all(items, s);
            grammar::expressions_from(e, s1, current_indent, expected_indent, nodes)
                == grammar::expressions_from(e, s2, current_indent, last, all)
        }),
    decreases items.len() - k,
{
    lemma_items_sound(e, at, items, current_indent, indent);
    parts::lemma_next_part(e, at, items, s, k);
    let (s1, nodes) = parts::read_all(items.take(k), s);
    parts::lemma_goes_on(s, s1);
    parts::lemma_ready(s1);
    if k < items.len() {
        assert(is_next_item(e, at, items, current_indent, indent, k));
        parts::lemma_places(e, items[k]);
        lemma_is_item(e, items[k], arbitrary(), Seq::empty());
        let next = lemma_separator(
            e,
            items[k],
            s1,
            current_indent,
            expected_indent,
            indent,
            nodes,
        );
        lemma_one_more(e, items[k], s1.moved(items[k].from), current_indent, next, nodes);
        lemma_items_before(e, at, items, s, k + 1, current_indent, next, indent)
    } else {
        assert(items.take(k) =~= items);
        expected_indent
    }
}

/// An assignment or a loop that stands behind other expressions and a separator, and takes them in,
/// is all that is read: the expressions before it are no list of their own.
pub proof fn law_expressions_taken_in(
    e: Script,
    s: State,
    items: Seq<Part>,
    indent: usize,
    last: Part,
    after: State,
    node: AstIndex,
)
    requires
        parts::is_ready(s),
        are_in_order(e, s.at, items, blocks::indent_before(e, s.at), indent),
        s.nodes.len() + parts::total_size(items) <= u32::MAX + 1,
        is_separated(
            e,
            behind_item(e, items.last()),
            last,
            blocks::indent_before(e, s.at),
            indent,
        ),
        0 <= last.from < e.tokens.len(),
        ({
            let (s1, nodes) = parts::read_all(items, s);
            &&& grammar::expression(e, s1.moved(last.from), nodes, 0) == Ok::<_, ParserError>(
                (after, Some(node)),
            )
            &&& last.from <= after.at
            &&& takes_others(after.nodes[node as int].node)
        }),
    ensures
        grammar::expressions(e, s, false) == Ok::<_, ParserError>((after, Some(node))),
        grammar::expressions(e, s, true) == Ok::<_, ParserError>((after, Some(node))),
{
    let at = s.at;
    let current_indent = blocks::indent_before(e, at);
    lemma_items_sound(e, at, items, current_indent, indent);
    parts::lemma_ready(s);
    parts::lemma_next_part(e, at, items, s, 0);
    assert(items.take(0) =~= Seq::empty());
    assert(is_next_item(e, at, items, current_indent, indent, 0));
    let s0 = s.moved(items[0].from);
    lemma_is_item(e, items[0], s0, Seq::empty());
    assert(e.spaced(s) == s0);
    parts::lemma_expression_behind_spaces(e, s, Seq::empty(), 0);
    let (s1, first) = (items[0].read)(s0);
    parts::lemma_goes_on(s0, s1);
    assert(Seq::<AstIndex>::empty().push(first) =~= seq![first]);
    let expected = lemma_items_before(e, at, items, s, 1, current_indent, None, indent);
    parts::lemma_read_all(e, at, items, s);
    let (s2, nodes) = parts::read_all(items, s);
    parts::lemma_goes_on(s, s2);
    parts::lemma_ready(s2);
    let next = lemma_separator(e, last, s2, current_indent, expected, indent, nodes);
    assert(grammar::next_expression(e, s2.moved(last.from), current_indent, next, nodes) == Ok::<
        _,
        ParserError,
    >((after, node))) by {
        reveal(grammar::next_expression);
    }
    assert(grammar::expressions_at(e, s, current_indent, None) == Ok::<_, ParserError>(
        (after, Some(node)),
    ) && grammar::expressions_at(e, s0, current_indent, None) == Ok::<_, ParserError>(
        (after, Some(node)),
    )) by {
        reveal(grammar::expressions_at);
        reveal(grammar::expressions_from);
    }
    reveal(grammar::expressions);
    reveal(grammar::expressions_at);
}

} // verus!
