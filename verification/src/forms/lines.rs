//! Lines: what they hold, and what they do to their scope.

use crate::ast::AstNodeView;
use crate::constant_pool::ConstantView;
use crate::error::ParserError;
use crate::forms::blocks;
use crate::forms::loops::{self, Head};
use crate::grammar;
use crate::node::{AssignOp, AssignTarget, AstIndex, NodeView, Scope};
use crate::parts::{self, Part};
use crate::script::{Script, State};
use crate::token::{Span, Token};
use vstd::prelude::*;

verus! {

broadcast use crate::script::group_places;

/// Where a script ends there is no line.
pub(crate) proof fn lemma_no_line_at_end(e: Script, s: State)
    requires
        s.at == e.tokens.len(),
    ensures
        grammar::line(e, s) == Ok::<_, ParserError>((s, None::<AstIndex>)),
{
    reveal(grammar::line);
    reveal(grammar::line_form);
    reveal(grammar::expressions);
    reveal(grammar::expressions_at);
    assert(e.spaced(s) == s);
    parts::lemma_no_expression(e, s, Seq::empty(), 0);
}

/// Whether a part is what a line holds.
#[verifier::opaque]
pub open spec fn is_content(e: Script, part: Part) -> bool {
    &&& part.is_sound(e)
    &&& part.from < part.to
    &&& forall|s: State|
        part.fits(s) ==> {
            let read = #[trigger] (part.read)(s);
            part.is_read(s, grammar::line_form(e, s))
        }
}

/// A line that holds a part.
pub open spec fn line_part(at: int, part: Part) -> Part {
    Part {
        from: at,
        to: part.to,
        read: |s: State|
            {
                let (s1, node) = (part.read)(s.moved(part.from));
                (s1.with_top(s1.top().finished()), node)
            },
        size: part.size,
    }
}

/// A line is what it holds, behind spaces; when it is complete, what it reads and does not assign
/// is known.
pub proof fn law_line(e: Script, at: int, part: Part)
    requires
        0 <= at,
        is_content(e, part),
        part.from == e.skip_spaces(at),
    ensures
        line_part(at, part).is_line(e),
{
    reveal(Part::is_sound);
    reveal(Part::is_line);
    let whole = line_part(at, part);
    lemma_content(e, part, arbitrary());
    assert forall|s: State| whole.fits(s) implies {
        let read = #[trigger] (whole.read)(s);
        &&& whole.leads_on(s)
        &&& whole.is_read(s, grammar::line(e, s))
    } by {
        let s1 = s.moved(part.from);
        parts::lemma_moved(s, part.from);
        assert(e.spaced(s) == s1);
        lemma_content(e, part, s1);
        let (s2, node) = (part.read)(s1);
        parts::lemma_goes_on(s1, s2);
        let frame = s2.top().finished();
        assert(frame.accesses_within(s2.at as nat));
        parts::lemma_scope(s2, frame);
        parts::lemma_goes_on_trans(s, s1, s2);
        parts::lemma_goes_on_trans(s, s2, s2.with_top(frame));
        reveal(grammar::line);
        reveal(grammar::line_form);
    }
}

proof fn lemma_content(e: Script, part: Part, s: State)
    requires
        is_content(e, part),
    ensures
        part.is_sound(e),
        0 <= part.from < part.to <= e.tokens.len(),
        part.fits(s) ==> part.leads_on(s),
        part.fits(s) ==> part.is_read(s, grammar::line_form(e, s)),
{
    reveal(is_content);
    parts::lemma_sound(e, part, s);
}

// Expressions

/// Whether a token starts a line that is not expressions.
pub open spec fn starts_statement(token: Option<Token>) -> bool {
    match token {
        Some(Token::For)
        | Some(Token::While)
        | Some(Token::Until)
        | Some(Token::Export)
        | Some(Token::Debug)
        | Some(Token::Error)
        | Some(Token::Break)
        | Some(Token::Continue)
        | Some(Token::Return) => true,
        _ => false,
    }
}

/// A line may hold expressions.
pub proof fn law_expressions_line(e: Script, part: Part)
    requires
        part.is_sequence(e),
        !starts_statement(e.token_at(part.from)),
    ensures
        is_content(e, part),
{
    reveal(is_content);
    parts::lemma_is_sequence(e, part, arbitrary());
    assert forall|s: State| part.fits(s) implies {
        let read = #[trigger] (part.read)(s);
        part.is_read(s, grammar::line_form(e, s))
    } by {
        parts::lemma_is_sequence(e, part, s);
        lemma_form_of_expressions(e, s);
    }
}

proof fn lemma_form_of_expressions(e: Script, s: State)
    requires
        !starts_statement(e.next(s)),
    ensures
        grammar::line_form(e, s) == grammar::expressions(e, s, false),
{
    reveal(grammar::line_form);
    reveal(grammar::expressions);
}

// Jumps

/// A keyword that stands for itself.
pub open spec fn jump_part(e: Script, at: int, again: bool) -> Part {
    parts::node_part(
        at,
        at + 1,
        Seq::empty(),
        |nodes: Seq<u32>|
            if again {
                NodeView::Continue
            } else {
                NodeView::Break
            },
        e.tokens[at].span,
    )
}

/// `break` ends a loop, and `continue` goes on with it.
pub proof fn law_jump(e: Script, at: int, again: bool)
    requires
        0 <= at,
        e.token_at(at) == Some(
            if again {
                Token::Continue
            } else {
                Token::Break
            },
        ),
    ensures
        is_content(e, jump_part(e, at, again)),
{
    reveal(is_content);
    let make = |nodes: Seq<u32>|
        if again {
            NodeView::Continue
        } else {
            NodeView::Break
        };
    parts::lemma_node_part(e, at, at + 1, Seq::empty(), make, e.tokens[at].span);
    let whole = jump_part(e, at, again);
    assert forall|s: State| whole.fits(s) implies {
        let read = #[trigger] (whole.read)(s);
        whole.is_read(s, grammar::line_form(e, s))
    } by {
        reveal(grammar::line_form);
    }
}

/// `return`, with a value or without.
pub open spec fn return_part(e: Script, at: int, value: Option<Part>) -> Part {
    match value {
        Some(part) => parts::node_part(
            at,
            part.to,
            parts::one(part),
            |nodes: Seq<u32>| NodeView::ReturnExpression(nodes[0]),
            parts::span_at(e, part.to),
        ),
        None => parts::node_part(
            at,
            e.skip_spaces(at + 1),
            Seq::empty(),
            |nodes: Seq<u32>| NodeView::Return,
            parts::span_at(e, e.skip_spaces(at + 1)),
        ),
    }
}

/// `return` gives back the value behind it, if there is one.
pub proof fn law_return(e: Script, at: int, value: Option<Part>)
    requires
        0 <= at,
        e.token_at(at) == Some(Token::Return),
        match value {
            Some(part) => part.is_value(e) && part.from == at + 1,
            None => parts::starts_nothing(e, at + 1),
        },
    ensures
        is_content(e, return_part(e, at, value)),
{
    reveal(is_content);
    let whole = return_part(e, at, value);
    match value {
        Some(part) => {
            let make = |nodes: Seq<u32>| NodeView::ReturnExpression(nodes[0]);
            parts::lemma_is_value(e, part, arbitrary());
            parts::lemma_one(e, at, part);
            parts::lemma_node_part(
                e,
                at,
                part.to,
                parts::one(part),
                make,
                parts::span_at(e, part.to),
            );
        },
        None => {
            let make = |nodes: Seq<u32>| NodeView::Return;
            let to = e.skip_spaces(at + 1);
            parts::lemma_node_part(e, at, to, Seq::empty(), make, parts::span_at(e, to));
        },
    }
    assert forall|s: State| whole.fits(s) implies {
        let read = #[trigger] (whole.read)(s);
        whole.is_read(s, grammar::line_form(e, s))
    } by {
        let s1 = e.taken(s);
        parts::lemma_moved(s, at + 1);
        match value {
            Some(part) => {
                parts::lemma_is_value(e, part, s1);
            },
            None => {
                lemma_no_value(e, s1);
            },
        }
        lemma_form_of_return(e, s);
    }
}

proof fn lemma_form_of_return(e: Script, s: State)
    requires
        e.next(s) == Some(Token::Return),
    ensures
        grammar::line_form(e, s) == match grammar::expressions(e, e.taken(s), true) {
            Err(x) => Err(x),
            Ok((s1, None)) => grammar::present(e.add_node(s1, NodeView::Return)),
            Ok((s1, Some(node))) => grammar::present(
                e.add_node(s1, NodeView::ReturnExpression(node)),
            ),
        },
{
    reveal(grammar::line_form);
    reveal(grammar::expressions);
}

/// Where nothing starts there is no value.
proof fn lemma_no_value(e: Script, s: State)
    requires
        parts::starts_nothing(e, s.at),
    ensures
        grammar::expressions(e, s, true) == Ok::<_, ParserError>((e.spaced(s), None::<AstIndex>)),
{
    reveal(grammar::expressions);
    reveal(grammar::expressions_at);
    let s1 = e.spaced(s);
    assert(e.spaced(s1) == s1);
    parts::lemma_no_expression(e, s1, Seq::empty(), 0);
}

// Loops

/// A loop with a block.
pub open spec fn loop_part(e: Script, head: Head, block: Part) -> Part {
    Part {
        from: head.at(),
        to: block.to,
        read: |s: State|
            {
                let (s1, nodes) = head.read(e, s);
                let (s2, body) = (block.read)(s1);
                e.add_node(s2, head.node(nodes, body))->Ok_0
            },
        size: head.size() + block.size + 1,
    }
}

/// A loop at the start of a line has the block behind it as its body.
pub proof fn law_loop_line(e: Script, head: Head, block: Part)
    requires
        head.stands_in(e),
        blocks::is_indented(e, block, blocks::indent_before(e, head.at())),
        block.from == head.to(e),
    ensures
        is_content(e, loop_part(e, head, block)),
{
    reveal(Part::is_sound);
    reveal(is_content);
    let whole = loop_part(e, head, block);
    let indent = blocks::indent_before(e, head.at());
    loops::lemma_places(e, head);
    assert forall|s: State| whole.fits(s) implies {
        let read = #[trigger] (whole.read)(s);
        &&& whole.leads_on(s)
        &&& whole.is_read(s, grammar::line_form(e, s))
    } by {
        loops::lemma_head(e, head, s);
        let (s1, nodes) = head.read(e, s);
        parts::lemma_goes_on(s, s1);
        assert(block.fits(s1));
        let (s2, body) = (block.read)(s1);
        parts::lemma_goes_on(s1, s2);
        let made = head.node(nodes, body);
        parts::lemma_pushed(s2, AstNodeView { node: made, span: e.span(s2) });
        parts::lemma_goes_on_trans(s, s1, s2);
        parts::lemma_goes_on_trans(s, s2, (whole.read)(s).0);
        loops::law_loop(e, head, s, None, true);
        lemma_block_body(e, s1, true, indent, loops::absent_body(head), s2, body);
        lemma_form_of_loop(e, s);
    }
}

proof fn lemma_block_body(
    e: Script,
    s: State,
    primary: bool,
    indent: usize,
    absent: crate::error::SyntaxError,
    s1: State,
    body: AstIndex,
)
    requires
        grammar::indented_block(e, s, indent, None) == Ok::<_, ParserError>((s1, Some(body))),
    ensures
        grammar::loop_body(e, s, None, primary, indent, absent) == Ok::<_, ParserError>(
            (s1, body),
        ),
{
    reveal(grammar::loop_body);
}

proof fn lemma_form_of_loop(e: Script, s: State)
    requires
        grammar::is_loop(e.next(s)),
    ensures
        grammar::line_form(e, s) == grammar::present(grammar::loop_form(e, s, None, true)),
{
    reveal(grammar::line_form);
}

// Exports

/// An export of an id with a value.
pub open spec fn export_part(e: Script, at: int, name: int, value: Part) -> Part {
    Part {
        from: at,
        to: value.to,
        read: |s: State|
            {
                let (s1, id) = s.moved(name + 1).add_constant(
                    ConstantView::Str(e.tokens[name].text),
                );
                let (s2, node) = e.add_node(s1, NodeView::Id(id))->Ok_0;
                let (s3, rhs) = (value.read)(s2.moved(value.from));
                e.add_node(
                    s3,
                    NodeView::Assign {
                        target: AssignTarget { target_index: node, scope: Scope::Global },
                        op: AssignOp::Equal,
                        expression: rhs,
                    },
                )->Ok_0
            },
        size: value.size + 2,
    }
}

/// An export of an id with a value is an assignment of the value to the id, which can be seen from
/// everywhere. The id is not read.
pub proof fn law_export(e: Script, at: int, name: int, value: Part)
    requires
        0 <= at,
        e.token_at(at) == Some(Token::Export),
        name == e.skip_spaces(at + 1),
        e.token_at(name) == Some(Token::Id),
        e.token_at(e.skip_spaces(name + 1)) == Some(Token::Assign),
        value.is_value(e),
        value.from == e.skip_spaces(name + 1) + 1,
    ensures
        is_content(e, export_part(e, at, name, value)),
{
    reveal(Part::is_sound);
    reveal(is_content);
    let whole = export_part(e, at, name, value);
    parts::lemma_is_value(e, value, arbitrary());
    assert forall|s: State| whole.fits(s) implies {
        let read = #[trigger] (whole.read)(s);
        &&& whole.leads_on(s)
        &&& whole.is_read(s, grammar::line_form(e, s))
    } by {
        parts::lemma_ready(s);
        let constant = ConstantView::Str(e.tokens[name].text);
        let s0 = s.moved(name + 1);
        parts::lemma_moved(s, name + 1);
        parts::lemma_constant(s0, constant);
        let (s1, id) = s0.add_constant(constant);
        parts::lemma_goes_on(s0, s1);
        let (s2, node) = e.add_node(s1, NodeView::Id(id))->Ok_0;
        parts::lemma_pushed(s1, AstNodeView { node: NodeView::Id(id), span: e.span(s1) });
        parts::lemma_goes_on(s1, s2);
        let s3 = s2.moved(value.from);
        parts::lemma_moved(s2, value.from);
        parts::lemma_is_value(e, value, s3);
        let (s4, rhs) = (value.read)(s3);
        parts::lemma_goes_on(s3, s4);
        let made = NodeView::Assign {
            target: AssignTarget { target_index: node, scope: Scope::Global },
            op: AssignOp::Equal,
            expression: rhs,
        };
        parts::lemma_pushed(s4, AstNodeView { node: made, span: e.span(s4) });
        parts::lemma_goes_on_trans(s, s0, s1);
        parts::lemma_goes_on_trans(s, s1, s2);
        parts::lemma_goes_on_trans(s, s2, s3);
        parts::lemma_goes_on_trans(s, s3, s4);
        parts::lemma_goes_on_trans(s, s4, (whole.read)(s).0);
        assert(e.spaced(s) == s);
        assert(e.taken(e.spaced(s2)) == s3);
        lemma_id_behind(e, s, name);
        lemma_form_of_export(e, s, s2, node);
        reveal(grammar::exported_value);
        reveal(grammar::expressions);
    }
}

/// An export of an id.
pub open spec fn export_id_part(e: Script, at: int, name: int) -> Part {
    Part {
        from: at,
        to: e.skip_spaces(name + 1),
        read: |s: State|
            {
                let (s1, id) = s.moved(name + 1).add_constant(
                    ConstantView::Str(e.tokens[name].text),
                );
                let (s2, node) = e.add_node(s1, NodeView::Id(id))->Ok_0;
                (s2.moved(e.skip_spaces(name + 1)), node)
            },
        size: 1,
    }
}

/// An export of an id without a value is the id, where the line ends behind it.
pub proof fn law_export_id(e: Script, at: int, name: int)
    requires
        0 <= at,
        e.token_at(at) == Some(Token::Export),
        name == e.skip_spaces(at + 1),
        e.token_at(name) == Some(Token::Id),
        e.token_at(e.skip_spaces(name + 1)) == Some(Token::NewLine) || e.token_at(
            e.skip_spaces(name + 1),
        ) == Some(Token::NewLineIndented),
    ensures
        is_content(e, export_id_part(e, at, name)),
{
    reveal(Part::is_sound);
    reveal(is_content);
    let whole = export_id_part(e, at, name);
    assert forall|s: State| whole.fits(s) implies {
        let read = #[trigger] (whole.read)(s);
        &&& whole.leads_on(s)
        &&& whole.is_read(s, grammar::line_form(e, s))
    } by {
        parts::lemma_ready(s);
        let constant = ConstantView::Str(e.tokens[name].text);
        let s0 = s.moved(name + 1);
        parts::lemma_moved(s, name + 1);
        parts::lemma_constant(s0, constant);
        let (s1, id) = s0.add_constant(constant);
        parts::lemma_goes_on(s0, s1);
        let (s2, node) = e.add_node(s1, NodeView::Id(id))->Ok_0;
        parts::lemma_pushed(s1, AstNodeView { node: NodeView::Id(id), span: e.span(s1) });
        parts::lemma_goes_on(s1, s2);
        parts::lemma_moved(s2, whole.to);
        parts::lemma_goes_on_trans(s, s0, s1);
        parts::lemma_goes_on_trans(s, s1, s2);
        parts::lemma_goes_on_trans(s, s2, s2.moved(whole.to));
        assert(e.spaced(s) == s);
        lemma_id_behind(e, s, name);
        reveal(grammar::line_form);
        reveal(grammar::export);
    }
}

/// An id behind spaces.
proof fn lemma_id_behind(e: Script, s: State, name: int)
    requires
        0 <= s.at,
        e.next(s) is Some,
        name == e.skip_spaces(s.at + 1),
        e.token_at(name) == Some(Token::Id),
    ensures
        ({
            let (s1, id) = s.moved(name + 1).add_constant(ConstantView::Str(e.tokens[name].text));
            e.id(e.taken(s), false) == (s1, Some(id))
        }),
{
    reveal(Script::id);
}

proof fn lemma_form_of_export(e: Script, s: State, s1: State, node: AstIndex)
    requires
        e.next(s) == Some(Token::Export),
        e.spaced(s) == s,
        e.id(e.taken(s), false).1 matches Some(id) && e.add_node(
            e.id(e.taken(s), false).0,
            NodeView::Id(id),
        ) == Ok::<_, ParserError>((s1, node)),
        e.token_at(e.skip_spaces(s1.at)) == Some(Token::Assign),
    ensures
        grammar::line_form(e, s) == grammar::exported_value(e, e.taken(e.spaced(s1)), node),
{
    reveal(grammar::line_form);
    reveal(grammar::export);
    reveal(grammar::exported_value);
}

// Debugging

/// A `debug` expression.
pub open spec fn debug_part(e: Script, at: int, value: Part) -> Part {
    Part {
        from: at,
        to: value.to,
        read: |s: State|
            {
                let (s1, expression) = (value.read)(s.moved(value.from));
                let (s2, expression_string) = s1.add_constant(
                    ConstantView::Str(e.text_between(value.from, value.to)),
                );
                s2.add_spanned_node(
                    NodeView::Debug { expression_string, expression },
                    Span {
                        start: e.tokens[at].span.start,
                        end: e.tokens[value.to - 1].span.end,
                    },
                )->Ok_0
            },
        size: value.size + 1,
    }
}

/// A `debug` expression has the value behind it, and the text of that value.
pub proof fn law_debug(e: Script, at: int, value: Part)
    requires
        0 <= at,
        e.token_at(at) == Some(Token::Debug),
        value.is_value(e),
        value.from == e.skip_spaces(at + 1),
    ensures
        is_content(e, debug_part(e, at, value)),
{
    reveal(Part::is_sound);
    reveal(is_content);
    let whole = debug_part(e, at, value);
    parts::lemma_is_value(e, value, arbitrary());
    assert forall|s: State| whole.fits(s) implies {
        let read = #[trigger] (whole.read)(s);
        &&& whole.leads_on(s)
        &&& whole.is_read(s, grammar::line_form(e, s))
    } by {
        let s1 = s.moved(value.from);
        parts::lemma_moved(s, value.from);
        parts::lemma_is_value(e, value, s1);
        let (s2, expression) = (value.read)(s1);
        parts::lemma_goes_on(s1, s2);
        let constant = ConstantView::Str(e.text_between(value.from, value.to));
        parts::lemma_constant(s2, constant);
        let (s3, expression_string) = s2.add_constant(constant);
        parts::lemma_goes_on(s2, s3);
        let made = NodeView::Debug { expression_string, expression };
        let span = Span {
            start: e.tokens[at].span.start,
            end: e.tokens[value.to - 1].span.end,
        };
        parts::lemma_pushed(s3, AstNodeView { node: made, span });
        parts::lemma_goes_on_trans(s, s1, s2);
        parts::lemma_goes_on_trans(s, s2, s3);
        parts::lemma_goes_on_trans(s, s3, (whole.read)(s).0);
        assert(e.spaced(e.taken(s)) == s1);
        lemma_form_of_debug(e, s, s2, expression);
    }
}

proof fn lemma_form_of_debug(e: Script, s: State, s1: State, node: AstIndex)
    requires
        e.next(s) == Some(Token::Debug),
        grammar::expressions(e, e.spaced(e.taken(s)), true) == Ok::<_, ParserError>(
            (s1, Some(node)),
        ),
    ensures
        ({
            let s2 = e.spaced(e.taken(s));
            let (s3, text) = s1.add_constant(ConstantView::Str(e.text_between(s2.at, s1.at)));
            grammar::line_form(e, s) == grammar::present(
                s3.add_spanned_node(
                    NodeView::Debug { expression_string: text, expression: node },
                    Span { start: e.span(e.taken(s)).start, end: e.span(s3).end },
                ),
            )
        }),
{
    reveal(grammar::line_form);
    reveal(grammar::debug_expression);
    reveal(grammar::expressions);
}

} // verus!
