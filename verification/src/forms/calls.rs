//! Calls and their arguments.

use crate::error::ParserError;
use crate::forms::operands;
use crate::grammar;
use crate::grouping;
use crate::literals;
use crate::node::{AstIndex, NodeView};
use crate::parts::{self, Part};
use crate::script::{Script, State};
use crate::token::{Span, Token};
use vstd::prelude::*;

verus! {

broadcast use crate::script::group_places;

// Arguments in parentheses

/// Where the next argument starts, or the end of the arguments: behind spaces, line breaks and
/// comments.
pub open spec fn next_argument(e: Script, at: int, args: Seq<Part>, k: int) -> int {
    e.skip_fillers(
        if k == 0 {
            at + 1
        } else {
            args[k - 1].to
        },
    )
}

/// Whether the next of some arguments in parentheses is an expression.
pub open spec fn is_argument(e: Script, at: int, args: Seq<Part>, k: int) -> bool {
    &&& args[k].is_expression(e, 1)
    &&& args[k].from == next_argument(e, at, args, k)
}

/// Whether arguments stand in parentheses at a place, over any number of lines.
pub open spec fn are_arguments(e: Script, at: int, args: Seq<Part>) -> bool {
    &&& 0 <= at
    &&& e.token_at(at) == Some(Token::ParenOpen)
    &&& forall|k: int| 0 <= k < args.len() ==> #[trigger] is_argument(e, at, args, k)
    &&& e.token_at(next_argument(e, at, args, args.len() as int)) == Some(Token::ParenClose)
}

/// The place behind arguments in parentheses.
pub open spec fn arguments_end(e: Script, at: int, args: Seq<Part>) -> int {
    next_argument(e, at, args, args.len() as int) + 1
}

pub(crate) proof fn lemma_arguments_sound(e: Script, at: int, args: Seq<Part>)
    requires
        are_arguments(e, at, args),
    ensures
        parts::are_sound(e, at + 1, args),
        parts::end_of(at + 1, args) < arguments_end(e, at, args) <= e.tokens.len(),
        at < parts::end_of(at + 1, args),
{
    assert forall|k: int| 0 <= k < args.len() implies (#[trigger] args[k]).is_sound(e) by {
        assert(is_argument(e, at, args, k));
        parts::lemma_is_expression(e, args[k], 1, arbitrary());
    }
    assert forall|k: int| 0 <= k < args.len() implies #[trigger] parts::follows(
        at + 1,
        args,
        k,
    ) by {
        assert(is_argument(e, at, args, k));
    }
    assert forall|k: int| 0 <= k < args.len() implies at + 1 < (#[trigger] args[k]).to by {
        lemma_arguments_in_order(e, at, args, k);
    }
}

proof fn lemma_arguments_in_order(e: Script, at: int, args: Seq<Part>, k: int)
    requires
        are_arguments(e, at, args),
        0 <= k < args.len(),
    ensures
        at + 1 < args[k].to,
    decreases k,
{
    assert(is_argument(e, at, args, k));
    parts::lemma_is_expression(e, args[k], 1, arbitrary());
    if k > 0 {
        lemma_arguments_in_order(e, at, args, k - 1);
    }
}

proof fn lemma_arguments_from(e: Script, at: int, args: Seq<Part>, s: State, k: int)
    requires
        are_arguments(e, at, args),
        parts::is_ready(s),
        s.at == at + 1,
        s.nodes.len() + parts::total_size(args) <= u32::MAX + 1,
        0 <= k <= args.len(),
    ensures
        ({
            let (s1, nodes) = parts::read_all(args.take(k), s);
            let (s2, all) = parts::read_all(args, s);
            grammar::parenthesized_args_from(e, s1, nodes) == Ok::<_, ParserError>(
                (s2.moved(arguments_end(e, at, args) - 1), all),
            )
        }),
    decreases args.len() - k,
{
    reveal(grammar::parenthesized_args_from);
    lemma_arguments_sound(e, at, args);
    parts::lemma_next_part(e, at + 1, args, s, k);
    let (s1, nodes) = parts::read_all(args.take(k), s);
    assert(s1.at == if k == 0 {
        at + 1
    } else {
        args[k - 1].to
    });
    if k < args.len() {
        assert(is_argument(e, at, args, k));
        let s2 = e.filled(s1);
        assert(s2 == s1.moved(args[k].from));
        parts::lemma_is_expression(e, args[k], 1, s2);
        let (s3, node) = (args[k].read)(s2);
        lemma_arguments_from(e, at, args, s, k + 1);
    } else {
        assert(args.take(k) =~= args);
        let s2 = e.filled(s1);
        assert(e.spaced(s2) == s2);
        parts::lemma_no_expression(e, s2, Seq::empty(), 1);
    }
}

/// Arguments in parentheses are read as the nodes of the expressions between the parentheses, in
/// their order: the `k`th argument is the node of the `k`th expression.
pub proof fn law_arguments(e: Script, s: State, args: Seq<Part>)
    requires
        are_arguments(e, s.at, args),
        parts::is_ready(s),
        s.nodes.len() + parts::total_size(args) <= u32::MAX + 1,
    ensures
        ({
            let (s1, nodes) = parts::read_all(args, s.moved(s.at + 1));
            &&& grammar::parenthesized_args(e, s) == Ok::<_, ParserError>(
                (s1.moved(arguments_end(e, s.at, args)), nodes),
            )
            &&& nodes.len() == args.len()
            &&& s1.nodes.len() <= s.nodes.len() + parts::total_size(args)
            &&& s1.constants.len() <= s.constants.len() + parts::total_size(args)
            &&& parts::goes_on(s, s1.moved(arguments_end(e, s.at, args)))
        }),
{
    reveal(grammar::parenthesized_args);
    reveal(grammar::parenthesized_args_from);
    let s0 = s.moved(s.at + 1);
    parts::lemma_moved(s, s.at + 1);
    lemma_arguments_sound(e, s.at, args);
    lemma_arguments_from(e, s.at, args, s0, 0);
    assert(args.take(0) =~= Seq::empty());
    assert(e.spaced(s) == s);
    parts::lemma_read_all(e, s.at + 1, args, s0);
    let (s1, nodes) = parts::read_all(args, s0);
    parts::lemma_goes_on(s0, s1);
    let end = arguments_end(e, s.at, args);
    parts::lemma_moved(s1, end);
    parts::lemma_goes_on_trans(s, s0, s1);
    parts::lemma_goes_on_trans(s, s1, s1.moved(end));
    assert(e.filled(s1.moved(end - 1)) == s1.moved(end - 1));
}

/// Literals at the given places, each an expression.
pub open spec fn literal_arguments(e: Script, starts: Seq<int>) -> Seq<Part> {
    starts.map_values(|at: int| parts::single_part(e, operands::literal_part(e, at)))
}

/// Whether the next of some arguments in parentheses is a literal, with nothing behind it that is
/// part of its expression.
pub open spec fn is_literal_argument(e: Script, at: int, starts: Seq<int>, k: int) -> bool {
    &&& literals::is_literal(e, starts[k])
    &&& starts[k] == next_argument(e, at, literal_arguments(e, starts), k)
    &&& !grammar::is_range(e.token_at(starts[k] + 1))
    &&& grouping::ends_expression(e, starts[k] + 1)
}

/// Literals in parentheses, with spaces and line breaks between them, are arguments in their order:
/// their nodes have ascending indices.
pub proof fn law_arguments_of_literals(e: Script, s: State, starts: Seq<int>)
    requires
        0 <= s.at,
        e.next(s) == Some(Token::ParenOpen),
        forall|k: int|
            0 <= k < starts.len() ==> #[trigger] is_literal_argument(e, s.at, starts, k),
        e.token_at(
            next_argument(e, s.at, literal_arguments(e, starts), starts.len() as int),
        ) == Some(Token::ParenClose),
        parts::is_ready(s),
        s.nodes.len() + starts.len() <= u32::MAX,
    ensures
        grammar::parenthesized_args(e, s) matches Ok((s1, nodes)) && {
            let first = s.nodes.len() as AstIndex;
            &&& nodes == literals::indices(first, (first + starts.len()) as AstIndex)
            &&& s1.nodes.len() == s.nodes.len() + starts.len()
            &&& s1.at == next_argument(
                e,
                s.at,
                literal_arguments(e, starts),
                starts.len() as int,
            ) + 1
        },
{
    let args = literal_arguments(e, starts);
    assert forall|k: int| 0 <= k < args.len() implies #[trigger] is_argument(e, s.at, args, k) by {
        assert(is_literal_argument(e, s.at, starts, k));
        operands::law_literal(e, starts[k], false);
        let part = operands::literal_part(e, starts[k]);
        parts::lemma_is_term(e, part, false, arbitrary());
        parts::law_single(e, part, 1);
    }
    assert forall|k: int| 0 <= k < starts.len() implies literals::is_literal(
        e,
        #[trigger] starts[k],
    ) by {
        assert(is_literal_argument(e, s.at, starts, k));
    }
    lemma_literals_size(e, starts);
    law_arguments(e, s, args);
    lemma_literals_read(e, starts, s.moved(s.at + 1));
}

proof fn lemma_literals_size(e: Script, starts: Seq<int>)
    ensures
        parts::total_size(literal_arguments(e, starts)) == starts.len(),
    decreases starts.len(),
{
    let args = literal_arguments(e, starts);
    if starts.len() > 0 {
        lemma_literals_size(e, starts.drop_last());
        assert(args.drop_last() =~= literal_arguments(e, starts.drop_last()));
    }
}

proof fn lemma_literals_read(e: Script, starts: Seq<int>, s: State)
    requires
        forall|k: int| 0 <= k < starts.len() ==> literals::is_literal(e, #[trigger] starts[k]),
        s.nodes.len() + starts.len() <= u32::MAX,
    ensures
        ({
            let first = s.nodes.len() as AstIndex;
            let (s1, nodes) = parts::read_all(literal_arguments(e, starts), s);
            &&& nodes == literals::indices(first, (first + starts.len()) as AstIndex)
            &&& s1.nodes.len() == s.nodes.len() + starts.len()
        }),
    decreases starts.len(),
{
    let args = literal_arguments(e, starts);
    let first = s.nodes.len() as AstIndex;
    let (s1, nodes) = parts::read_all(args, s);
    if starts.len() > 0 {
        let before = starts.drop_last();
        assert forall|k: int| 0 <= k < before.len() implies literals::is_literal(
            e,
            #[trigger] before[k],
        ) by {
            assert(before[k] == starts[k]);
        }
        lemma_literals_read(e, before, s);
        assert(args.drop_last() =~= literal_arguments(e, before));
        let (s2, some) = parts::read_all(literal_arguments(e, before), s);
        assert(literals::is_literal(e, starts[starts.len() - 1]));
        literals::lemma_literal(e, s2.moved(starts.last()));
        assert(nodes =~= literals::indices(first, (first + starts.len()) as AstIndex));
    } else {
        assert(nodes =~= literals::indices(first, first));
    }
}

// Calls without parentheses

/// The id of a function that is called, and the space behind it.
pub open spec fn callee_part(e: Script, at: int) -> Part {
    Part {
        from: at,
        to: at + 2,
        read: |s: State|
            {
                let (s1, id) = s.moved(at + 1).add_constant(
                    crate::constant_pool::ConstantView::Str(e.tokens[at].text),
                );
                let s2 = s1.with_top(s1.top().with_access(id));
                let (s3, node) = e.add_node(s2.moved(at + 2), NodeView::Id(id))->Ok_0;
                (s3, node)
            },
        size: 1,
    }
}

pub(crate) proof fn lemma_callee(e: Script, at: int)
    requires
        0 <= at,
        at + 2 <= e.tokens.len(),
    ensures
        callee_part(e, at).is_sound(e),
{
    reveal(Part::is_sound);
    let part = callee_part(e, at);
    assert forall|s: State| part.fits(s) implies {
        let (s1, node) = #[trigger] (part.read)(s);
        &&& part.leads_on(s)
    } by {
        let (s1, node) = (part.read)(s);
        parts::lemma_ready(s);
        let s2 = s.moved(at + 2);
        let frame = s1.top();
        parts::lemma_moved(s, at + 2);
        assert forall|other: u32| #[trigger] frame.access_count(other) <= s2.at by {
            assert(s.top().access_count(other) <= s.at);
        }
        let s3 = s2.with_top(frame);
        parts::lemma_scope(s2, frame);
        parts::lemma_added(s3, s1);
        parts::lemma_goes_on_trans(s, s2, s3);
        parts::lemma_goes_on_trans(s, s3, s1);
    }
}

/// Whether the next of some arguments without parentheses is an expression. All but the last end on
/// one line.
pub open spec fn is_open_argument(e: Script, at: int, args: Seq<Part>, k: int) -> bool {
    let part = args[k];
    &&& part.is_expression(e, 1)
    &&& part.starts_behind(
        e,
        if k == 0 {
            at
        } else {
            args[k - 1].to
        },
    )
    &&& k < args.len() - 1 ==> grouping::line_before(e, part.to) == grouping::line_before(
        e,
        args[0].to,
    )
}

/// Whether the last of some arguments ends on the line of the others.
pub open spec fn are_on_line(e: Script, args: Seq<Part>) -> bool {
    grouping::line_before(e, args.last().to) == grouping::line_before(e, args[0].to)
}

/// The place behind arguments without parentheses. On one line, the spaces there are taken too.
pub open spec fn open_arguments_end(e: Script, args: Seq<Part>) -> int {
    if are_on_line(e, args) {
        e.skip_spaces(args.last().to)
    } else {
        args.last().to
    }
}

/// Whether arguments stand at a place, without parentheses around them. The first of them that ends
/// on another line is the last.
pub open spec fn are_open_arguments(e: Script, at: int, args: Seq<Part>) -> bool {
    &&& args.len() > 0
    &&& forall|k: int| 0 <= k < args.len() ==> #[trigger] is_open_argument(e, at, args, k)
    &&& are_on_line(e, args) ==> parts::starts_nothing(e, args.last().to)
}

/// A call without parentheses.
pub open spec fn open_call_part(e: Script, at: int, args: Seq<Part>) -> Part {
    let to = open_arguments_end(e, args);
    parts::node_part(
        at,
        to,
        parts::one(callee_part(e, at)) + args,
        |nodes: Seq<u32>| NodeView::Call { function: nodes[0], args: nodes.skip(1) },
        Span { start: e.tokens[at].span.start, end: e.tokens[to - 1].span.end },
    )
}

pub(crate) proof fn lemma_open_arguments_sound(e: Script, at: int, args: Seq<Part>)
    requires
        are_open_arguments(e, at, args),
    ensures
        parts::are_sound(e, at, args),
        at < parts::end_of(at, args) <= e.tokens.len(),
{
    assert forall|k: int| 0 <= k < args.len() implies (#[trigger] args[k]).is_sound(e) by {
        assert(is_open_argument(e, at, args, k));
        parts::lemma_is_expression(e, args[k], 1, arbitrary());
    }
    assert forall|k: int| 0 <= k < args.len() implies #[trigger] parts::follows(at, args, k) by {
        assert(is_open_argument(e, at, args, k));
    }
    assert forall|k: int| 0 <= k < args.len() implies at < (#[trigger] args[k]).to by {
        lemma_open_arguments_in_order(e, at, args, k);
    }
    assert(at < args[args.len() - 1].to);
    parts::lemma_places(e, args[args.len() - 1]);
}

proof fn lemma_open_arguments_in_order(e: Script, at: int, args: Seq<Part>, k: int)
    requires
        are_open_arguments(e, at, args),
        0 <= k < args.len(),
    ensures
        at < args[k].to,
    decreases k,
{
    assert(is_open_argument(e, at, args, k));
    parts::lemma_is_expression(e, args[k], 1, arbitrary());
    if k > 0 {
        lemma_open_arguments_in_order(e, at, args, k - 1);
    }
}

proof fn lemma_open_arguments_from(e: Script, at: int, args: Seq<Part>, s: State, k: int)
    requires
        are_open_arguments(e, at, args),
        parts::is_ready(s),
        s.at == at,
        s.nodes.len() + parts::total_size(args) <= u32::MAX + 1,
        1 <= k <= args.len(),
        k == args.len() ==> are_on_line(e, args),
    ensures
        ({
            let (s1, nodes) = parts::read_all(args.take(k), s);
            let (s2, all) = parts::read_all(args, s);
            grammar::open_args_from(e, s1, grouping::line_before(e, args[0].to), nodes)
                == Ok::<_, ParserError>((s2.moved(open_arguments_end(e, args)), all))
        }),
    decreases args.len() - k,
{
    reveal(grammar::open_args_from);
    lemma_open_arguments_sound(e, at, args);
    parts::lemma_next_part(e, at, args, s, k);
    let (s1, nodes) = parts::read_all(args.take(k), s);
    assert(s1.at == args[k - 1].to);
    if k < args.len() {
        assert(is_open_argument(e, at, args, k));
        let s2 = e.spaced(s1);
        assert(s2 == s1.moved(args[k].from));
        parts::lemma_is_expression(e, args[k], 1, s2);
        let (s3, node) = (args[k].read)(s2);
        parts::lemma_expression_behind_spaces(e, s1, Seq::empty(), 1);
        if k + 1 < args.len() || are_on_line(e, args) {
            lemma_open_arguments_from(e, at, args, s, k + 1);
        } else {
            assert(args.take(k + 1) =~= args);
            assert(s3.moved(args.last().to) == s3);
        }
    } else {
        assert(args.take(k) =~= args);
        parts::lemma_no_expression(e, s1, Seq::empty(), 1);
    }
}

/// The expressions behind a callee, up to where none starts, are its arguments in their order.
pub(crate) proof fn lemma_open_arguments(e: Script, s: State, args: Seq<Part>)
    requires
        are_open_arguments(e, s.at, args),
        parts::is_ready(s),
        s.nodes.len() + parts::total_size(args) <= u32::MAX + 1,
    ensures
        ({
            let (s1, nodes) = parts::read_all(args, s);
            &&& grammar::open_args(e, s) == Ok::<_, ParserError>(
                (s1.moved(open_arguments_end(e, args)), Some(nodes)),
            )
            &&& nodes.len() == args.len()
            &&& s1.nodes.len() <= s.nodes.len() + parts::total_size(args)
            &&& parts::goes_on(s, s1)
            &&& s1.at == args.last().to
        }),
{
    reveal(grammar::open_args);
    reveal(grammar::open_args_from);
    lemma_open_arguments_sound(e, s.at, args);
    parts::lemma_read_all(e, s.at, args, s);
    parts::lemma_next_part(e, s.at, args, s, 0);
    lemma_open_arguments_from(e, s.at, args, s, 1);
    assert(args.take(0) =~= Seq::empty());
    assert(is_open_argument(e, s.at, args, 0));
    let s1 = e.spaced(s);
    assert(s1 == s.moved(args[0].from));
    parts::lemma_is_expression(e, args[0], 1, s1);
    let (s2, node) = (args[0].read)(s1);
    parts::lemma_expression_behind_spaces(e, s, Seq::empty(), 1);
    assert(Seq::<AstIndex>::empty().push(node) =~= seq![node]);
}

/// An id in a primary position with expressions behind it is a call: of the id, with the nodes of
/// the expressions as its arguments, in their order.
pub proof fn law_open_call(e: Script, at: int, args: Seq<Part>)
    requires
        0 <= at,
        e.token_at(at) == Some(Token::Id),
        e.token_at(at + 1) == Some(Token::Whitespace),
        are_open_arguments(e, at + 2, args),
    ensures
        open_call_part(e, at, args).is_term(e, true),
{
    reveal(Part::is_operand);
    reveal(Part::is_term);
    let whole = open_call_part(e, at, args);
    let callee = callee_part(e, at);
    let all = parts::one(callee) + args;
    let to = open_arguments_end(e, args);
    let span = Span { start: e.tokens[at].span.start, end: e.tokens[to - 1].span.end };
    let make = |nodes: Seq<u32>| NodeView::Call { function: nodes[0], args: nodes.skip(1) };
    lemma_callee(e, at);
    lemma_open_arguments_sound(e, at + 2, args);
    parts::lemma_joined(e, at, callee, args);
    parts::lemma_node_part(e, at, to, all, make, span);
    assert forall|s: State| whole.fits(s) implies {
        let read = #[trigger] (whole.read)(s);
        &&& whole.is_read(s, grammar::first_operand(e, s, true))
        &&& whole.is_read(s, grammar::term(e, s, true))
    } by {
        reveal(grammar::first_operand);
        reveal(grammar::negated);
        reveal(grammar::term);
        reveal(grammar::id_expression);
        reveal(grammar::open_args);
        reveal(Script::id);
        assert(e.spaced(s) == s);
        assert(grammar::negated(e, s) == Ok::<_, ParserError>((s, None::<AstIndex>)));
        assert(s.moved(at) == s);
        parts::lemma_sound(e, callee, s);
        let (s1, function) = (callee.read)(s);
        parts::lemma_goes_on(s, s1);
        lemma_open_arguments(e, s1, args);
        let (s2, nodes) = parts::read_all(args, s1);
        assert(parts::read_all(all, s) == (s2, Seq::<u32>::empty().push(function) + nodes));
        assert((Seq::<u32>::empty().push(function) + nodes).skip(1) =~= nodes);
    }
}

} // verus!
