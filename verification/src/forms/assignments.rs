//! Assignments, and loops behind their body.

use crate::ast::AstNodeView;
use crate::error::ParserError;
use crate::forms::lookups;
use crate::forms::loops::{self, Head};
use crate::forms::operands;
use crate::frame::FrameView;
use crate::grammar;
use crate::grouping;
use crate::literals;
use crate::node::{AssignOp, AssignTarget, AstIndex, NodeView, Scope};
use crate::parts::{self, Part};
use crate::script::{Script, State};
use crate::token::Token;
use vstd::prelude::*;

verus! {

broadcast use crate::script::group_places;

/// The operation of an assignment symbol: to give a value, or to change one.
pub open spec fn operation_of(symbol: Token) -> Option<AssignOp> {
    match symbol {
        Token::Assign => Some(AssignOp::Equal),
        Token::AssignAdd => Some(AssignOp::Add),
        Token::AssignSubtract => Some(AssignOp::Subtract),
        Token::AssignMultiply => Some(AssignOp::Multiply),
        Token::AssignDivide => Some(AssignOp::Divide),
        Token::AssignModulo => Some(AssignOp::Modulo),
        _ => None,
    }
}

/// Where the targets of an assignment can be seen from: from everywhere at a top level that is
/// exported.
pub open spec fn scope_of(e: Script, frame: FrameView) -> Scope {
    if e.export_all_top_level && frame.top_level {
        Scope::Global
    } else {
        Scope::Local
    }
}

/// The scope with an id as a target: the id was not read, and belongs to the scope unless it is
/// exported.
pub open spec fn with_target(frame: FrameView, id: u32, scope: Scope) -> FrameView {
    match scope {
        Scope::Local => frame.without_access(id).with_target(id),
        Scope::Global => frame.without_access(id),
    }
}

/// The state with nodes as targets, in their order.
pub open spec fn with_targets(s: State, lhs: Seq<AstIndex>, op: AssignOp, scope: Scope) -> State
    decreases lhs.len(),
{
    if lhs.len() == 0 {
        s
    } else {
        let s1 = with_targets(s, lhs.drop_last(), op, scope);
        match s1.nodes[lhs.last() as int].node {
            NodeView::Id(id) if op == AssignOp::Equal => s1.with_top(
                with_target(s1.top(), id, scope),
            ),
            _ => s1,
        }
    }
}

/// The state when the assignment to targets is complete.
pub open spec fn with_complete(s: State, lhs: Seq<AstIndex>, op: AssignOp, scope: Scope) -> State
    decreases lhs.len(),
{
    if lhs.len() == 0 {
        s
    } else {
        let s1 = with_complete(s, lhs.drop_last(), op, scope);
        match s1.nodes[lhs.last() as int].node {
            NodeView::Id(id) if op == AssignOp::Equal && scope == Scope::Local => s1.with_top(
                s1.top().with_complete(id),
            ),
            _ => s1,
        }
    }
}

/// Whether the `k`th node can be a target: a lookup, or an id, which has been read if it is given a
/// value.
pub open spec fn is_target(
    s: State,
    lhs: Seq<AstIndex>,
    op: AssignOp,
    scope: Scope,
    k: int,
) -> bool {
    match s.nodes[lhs[k] as int].node {
        NodeView::Lookup(_) => true,
        NodeView::Id(id) => op == AssignOp::Equal ==> with_targets(
            s,
            lhs.take(k),
            op,
            scope,
        ).top().access_count(id) > 0,
        _ => false,
    }
}

/// Whether nodes can be targets.
pub open spec fn are_targets(s: State, lhs: Seq<AstIndex>, op: AssignOp, scope: Scope) -> bool {
    forall|k: int| 0 <= k < lhs.len() ==> #[trigger] is_target(s, lhs, op, scope, k)
}

proof fn lemma_targets_state(s: State, lhs: Seq<AstIndex>, op: AssignOp, scope: Scope)
    requires
        parts::is_ready(s),
    ensures
        ({
            let s1 = with_targets(s, lhs, op, scope);
            let s2 = with_complete(s, lhs, op, scope);
            &&& s1.at == s.at && s1.nodes == s.nodes && s1.constants == s.constants
            &&& s2.at == s.at && s2.nodes == s.nodes && s2.constants == s.constants
            &&& s2.top().accesses == s.top().accesses
            &&& s2.frames.len() == s.frames.len()
            &&& parts::goes_on(s, s2)
        }),
    decreases lhs.len(),
{
    parts::lemma_ready(s);
    if lhs.len() > 0 {
        let before = lhs.drop_last();
        lemma_targets_state(s, before, op, scope);
        let s2 = with_complete(s, before, op, scope);
        if let NodeView::Id(id) = s2.nodes[lhs.last() as int].node {
            if op == AssignOp::Equal && scope == Scope::Local {
                let frame = s2.top().with_complete(id);
                parts::lemma_goes_on(s, s2);
                assert forall|other: u32| #[trigger] frame.access_count(other) <= s2.at by {
                    assert(s.top().access_count(other) <= s.at);
                }
                parts::lemma_scope(s2, frame);
                parts::lemma_goes_on_trans(s, s2, s2.with_top(frame));
            }
        }
    } else {
        parts::lemma_moved(s, s.at);
        assert(s.moved(s.at) == s);
    }
}

proof fn lemma_targets_go_on(s: State, lhs: Seq<AstIndex>, op: AssignOp, scope: Scope, k: int)
    requires
        parts::is_ready(s),
        are_targets(s, lhs, op, scope),
        0 <= k <= lhs.len(),
    ensures
        parts::goes_on(s, with_targets(s, lhs.take(k), op, scope)),
        with_targets(s, lhs.take(k), op, scope).nodes == s.nodes,
    decreases k,
{
    lemma_targets_state(s, lhs.take(k), op, scope);
    if k > 0 {
        lemma_targets_go_on(s, lhs, op, scope, k - 1);
        assert(lhs.take(k).drop_last() =~= lhs.take(k - 1));
        let s1 = with_targets(s, lhs.take(k - 1), op, scope);
        assert(is_target(s, lhs, op, scope, k - 1));
        parts::lemma_goes_on(s, s1);
        parts::lemma_ready(s1);
        if let NodeView::Id(id) = s.nodes[lhs[k - 1] as int].node {
            if op == AssignOp::Equal {
                let frame = with_target(s1.top(), id, scope);
                assert forall|other: u32| #[trigger] frame.access_count(other) <= s1.at by {
                    assert(s1.top().access_count(other) <= s1.at);
                    assert(s1.top().access_count(id) <= s1.at);
                }
                parts::lemma_scope(s1, frame);
                parts::lemma_goes_on_trans(s, s1, s1.with_top(frame));
            }
        }
    } else {
        assert(lhs.take(0) =~= Seq::empty());
        parts::lemma_moved(s, s.at);
        assert(s.moved(s.at) == s);
    }
}

proof fn lemma_targets_from(
    e: Script,
    s: State,
    lhs: Seq<AstIndex>,
    k: int,
    op: AssignOp,
    scope: Scope,
)
    requires
        parts::is_ready(s),
        are_targets(s, lhs, op, scope),
        0 <= k <= lhs.len(),
    ensures
        grammar::targets_from(e, with_targets(s, lhs.take(k), op, scope), lhs, k, op, scope)
            == Ok::<_, ParserError>(with_targets(s, lhs, op, scope)),
    decreases lhs.len() - k,
{
    reveal(grammar::targets_from);
    lemma_targets_go_on(s, lhs, op, scope, k);
    if k < lhs.len() {
        assert(is_target(s, lhs, op, scope, k));
        assert(lhs.take(k + 1).drop_last() =~= lhs.take(k));
        lemma_targets_from(e, s, lhs, k + 1, op, scope);
    } else {
        assert(lhs.take(k) =~= lhs);
    }
}

proof fn lemma_complete_from(
    s: State,
    lhs: Seq<AstIndex>,
    k: int,
)
    requires
        parts::is_ready(s),
        0 <= k <= lhs.len(),
    ensures
        grammar::complete_from(
            with_complete(s, lhs.take(k), AssignOp::Equal, Scope::Local),
            lhs,
            k,
        ) == with_complete(s, lhs, AssignOp::Equal, Scope::Local),
    decreases lhs.len() - k,
{
    reveal(grammar::complete_from);
    lemma_targets_state(s, lhs.take(k), AssignOp::Equal, Scope::Local);
    if k < lhs.len() {
        assert(lhs.take(k + 1).drop_last() =~= lhs.take(k));
        lemma_complete_from(s, lhs, k + 1);
    } else {
        assert(lhs.take(k) =~= lhs);
    }
}

proof fn lemma_not_completed(s: State, lhs: Seq<AstIndex>, op: AssignOp, scope: Scope)
    requires
        !(op == AssignOp::Equal && scope == Scope::Local),
    ensures
        with_complete(s, lhs, op, scope) == s,
    decreases lhs.len(),
{
    if lhs.len() > 0 {
        lemma_not_completed(s, lhs.drop_last(), op, scope);
    }
}

/// The node of an assignment: to one target, or to several in their order.
pub open spec fn assignment_node(
    lhs: Seq<AstIndex>,
    op: AssignOp,
    scope: Scope,
    value: AstIndex,
) -> NodeView {
    if lhs.len() == 1 {
        NodeView::Assign {
            target: AssignTarget { target_index: lhs[0], scope },
            op,
            expression: value,
        }
    } else {
        NodeView::MultiAssign {
            targets: Seq::new(
                lhs.len(),
                |k: int| AssignTarget { target_index: lhs[k], scope },
            ),
            expressions: value,
        }
    }
}

/// The state behind an assignment to nodes that have been read, and its node.
pub open spec fn read_assignment(
    e: Script,
    s: State,
    lhs: Seq<AstIndex>,
    op: AssignOp,
    value: Part,
) -> (State, AstIndex) {
    let scope = scope_of(e, s.top());
    let s1 = with_targets(s.moved(value.from), lhs, op, scope);
    let (s2, node) = (value.read)(s1);
    let s3 = with_complete(s2, lhs, op, scope);
    e.add_node(s3, assignment_node(lhs, op, scope, node))->Ok_0
}

/// An assignment symbol behind nodes gives them the value behind it. Its targets are all the nodes
/// in their order; its value is read when they are targets, and completes the assignment.
pub proof fn law_assignment(
    e: Script,
    s: State,
    lhs: Seq<AstIndex>,
    value: Part,
    min_precedence: u8,
)
    requires
        parts::is_ready(s),
        s.at <= e.tokens.len(),
        lhs.len() > 0,
        e.token_at(e.skip_spaces(s.at)) matches Some(symbol) && operation_of(symbol) is Some,
        value.is_value(e),
        value.from == e.skip_spaces(s.at) + 1,
        s.nodes.len() + value.size + 1 <= u32::MAX + 1,
        ({
            let op = operation_of(e.tokens[e.skip_spaces(s.at)].token)->0;
            are_targets(s.moved(value.from), lhs, op, scope_of(e, s.top()))
        }),
    ensures
        ({
            let op = operation_of(e.tokens[e.skip_spaces(s.at)].token)->0;
            let (s1, node) = read_assignment(e, s, lhs, op, value);
            &&& grammar::continued(e, s, lhs, min_precedence) == Ok::<_, ParserError>(
                (s1, Some(node)),
            )
            &&& node < s1.nodes.len() <= s.nodes.len() + value.size + 1
            &&& s1.constants.len() <= s.constants.len() + value.size
            &&& s1.at == value.to
            &&& parts::goes_on(s, s1)
        }),
{
    let symbol = e.skip_spaces(s.at);
    let op = operation_of(e.tokens[symbol].token)->0;
    let scope = scope_of(e, s.top());
    parts::lemma_ready(s);
    let s0 = s.moved(value.from);
    parts::lemma_moved(s, value.from);
    assert(e.taken(e.spaced(s)) == s0);
    lemma_targets_from(e, s0, lhs, 0, op, scope);
    assert(lhs.take(0) =~= Seq::empty());
    lemma_targets_go_on(s0, lhs, op, scope, lhs.len() as int);
    assert(lhs.take(lhs.len() as int) =~= lhs);
    lemma_targets_state(s0, lhs, op, scope);
    let s1 = with_targets(s0, lhs, op, scope);
    parts::lemma_goes_on(s0, s1);
    parts::lemma_is_value(e, value, s1);
    let (s2, rhs) = (value.read)(s1);
    parts::lemma_goes_on(s1, s2);
    lemma_targets_state(s2, lhs, op, scope);
    let s3 = with_complete(s2, lhs, op, scope);
    if op == AssignOp::Equal && scope == Scope::Local {
        lemma_complete_from(s2, lhs, 0);
    } else {
        lemma_not_completed(s2, lhs, op, scope);
    }
    parts::lemma_goes_on(s2, s3);
    let made = assignment_node(lhs, op, scope, rhs);
    parts::lemma_pushed(s3, AstNodeView { node: made, span: e.span(s3) });
    let (s4, node) = read_assignment(e, s, lhs, op, value);
    parts::lemma_goes_on_trans(s, s0, s1);
    parts::lemma_goes_on_trans(s, s1, s2);
    parts::lemma_goes_on_trans(s, s2, s3);
    parts::lemma_goes_on_trans(s, s3, s4);
    assert(grammar::assign_targets(lhs, scope) =~= Seq::new(
        lhs.len(),
        |k: int| AssignTarget { target_index: lhs[k], scope },
    ));
    lemma_assignment_at(e, e.spaced(s), lhs, op, s1, s2, rhs, s3);
    lemma_continued_at_symbol(e, s, lhs, min_precedence);
}

proof fn lemma_assignment_at(
    e: Script,
    s: State,
    lhs: Seq<AstIndex>,
    op: AssignOp,
    s1: State,
    s2: State,
    rhs: AstIndex,
    s3: State,
)
    requires
        e.next(s) is Some,
        lhs.len() > 0,
        ({
            let scope = scope_of(e, s.top());
            &&& grammar::targets_from(e, e.taken(s), lhs, 0, op, scope) == Ok::<_, ParserError>(s1)
            &&& s3 == if op == AssignOp::Equal && scope == Scope::Local {
                grammar::complete_from(s2, lhs, 0)
            } else {
                s2
            }
        }),
        grammar::expressions(e, s1, true) == Ok::<_, ParserError>((s2, Some(rhs))),
    ensures
        ({
            let scope = scope_of(e, s.top());
            let targets = grammar::assign_targets(lhs, scope);
            grammar::assignment(e, s, lhs, op) == grammar::present(
                e.add_node(
                    s3,
                    if lhs.len() == 1 {
                        NodeView::Assign {
                            target: AssignTarget { target_index: lhs[0], scope },
                            op,
                            expression: rhs,
                        }
                    } else {
                        NodeView::MultiAssign { targets, expressions: rhs }
                    },
                ),
            )
        }),
{
    reveal(grammar::assignment);
}

proof fn lemma_continued_at_symbol(
    e: Script,
    s: State,
    lhs: Seq<AstIndex>,
    min_precedence: u8,
)
    requires
        lhs.len() > 0,
        e.token_at(e.skip_spaces(s.at)) matches Some(symbol) && operation_of(symbol) is Some,
    ensures
        grammar::continued(e, s, lhs, min_precedence) == grammar::assignment(
            e,
            e.spaced(s),
            lhs,
            operation_of(e.tokens[e.skip_spaces(s.at)].token)->0,
        ),
{
    reveal(grammar::continued);
    reveal(grammar::assignment);
}

// Ids as targets

/// An assignment to an id.
pub open spec fn assign_part(e: Script, id: Part, value: Part) -> Part {
    let op = operation_of(e.tokens[e.skip_spaces(id.to)].token)->0;
    Part {
        from: id.from,
        to: value.to,
        read: |s: State|
            {
                let (s1, node) = (id.read)(s);
                read_assignment(e, s1, seq![node], op, value)
            },
        size: id.size + value.size + 1,
    }
}

/// An id, an assignment symbol and a value are an assignment of the value to the id.
pub proof fn law_assign(e: Script, at: int, value: Part, min_precedence: u8)
    requires
        0 <= at,
        e.tokens.len() <= u32::MAX,
        e.token_at(at) == Some(Token::Id),
        e.token_at(e.skip_spaces(at + 1)) matches Some(symbol) && operation_of(symbol) is Some,
        grouping::line_before(e, at) == grouping::line_before(e, e.skip_spaces(at + 1)),
        grouping::line_before(e, at) == grouping::line_before(e, at + 1),
        value.is_value(e),
        value.from == e.skip_spaces(at + 1) + 1,
    ensures
        assign_part(e, target_part(e, at, min_precedence == 0), value).is_expression(
            e,
            min_precedence,
        ),
{
    reveal(Part::is_sound);
    reveal(Part::is_expression);
    let primary = min_precedence == 0;
    let id = target_part(e, at, primary);
    let whole = assign_part(e, id, value);
    parts::lemma_is_value(e, value, arbitrary());
    lemma_target_end(e, at, primary);
    assert forall|s: State| whole.fits(s) implies {
        let read = #[trigger] (whole.read)(s);
        &&& whole.leads_on(s)
        &&& whole.is_read(s, grammar::expression(e, s, Seq::empty(), min_precedence))
    } by {
        lemma_assign_at(e, at, value, min_precedence, s);
    }
}

/// An id that is a target. In a primary position the spaces behind it are part of it.
pub open spec fn target_part(e: Script, at: int, primary: bool) -> Part {
    operands::id_part(e, at, primary)
}

proof fn lemma_target_end(e: Script, at: int, primary: bool)
    ensures
        e.skip_spaces(target_part(e, at, primary).to) == e.skip_spaces(at + 1),
        at < target_part(e, at, primary).to,
{
    assert(e.skip_spaces(e.skip_spaces(at + 1)) == e.skip_spaces(at + 1));
}

proof fn lemma_assign_at(e: Script, at: int, value: Part, min_precedence: u8, s: State)
    requires
        0 <= at,
        e.tokens.len() <= u32::MAX,
        e.token_at(at) == Some(Token::Id),
        e.token_at(e.skip_spaces(at + 1)) matches Some(symbol) && operation_of(symbol) is Some,
        grouping::line_before(e, at) == grouping::line_before(e, e.skip_spaces(at + 1)),
        grouping::line_before(e, at) == grouping::line_before(e, at + 1),
        value.is_value(e),
        value.from == e.skip_spaces(at + 1) + 1,
        assign_part(e, target_part(e, at, min_precedence == 0), value).fits(s),
    ensures
        ({
            let whole = assign_part(e, target_part(e, at, min_precedence == 0), value);
            &&& whole.leads_on(s)
            &&& whole.is_read(s, grammar::expression(e, s, Seq::empty(), min_precedence))
        }),
{
    let primary = min_precedence == 0;
    let id = target_part(e, at, primary);
    let whole = assign_part(e, id, value);
    let symbol = e.skip_spaces(at + 1);
    let op = operation_of(e.tokens[symbol].token)->0;
    lemma_target_end(e, at, primary);
    parts::lemma_ready(s);
    lemma_target_read(e, at, primary, s);
    let (s1, node) = (id.read)(s);
    parts::lemma_goes_on(s, s1);
    let lhs = seq![node];
    let scope = scope_of(e, s1.top());
    assert(are_targets(s1.moved(value.from), lhs, op, scope)) by {
        assert(lhs.take(0) =~= Seq::empty());
        assert(s.top().access_count(s1.nodes[node as int].node->Id_0) <= s.at);
    }
    parts::lemma_is_value(e, value, arbitrary());
    law_assignment(e, s1, lhs, value, min_precedence);
    let (s2, made) = read_assignment(e, s1, lhs, op, value);
    parts::lemma_goes_on_trans(s, s1, s2);
    assert(Seq::<AstIndex>::empty().push(node) =~= lhs);
    parts::lemma_expression_start(e, s, Seq::empty(), min_precedence, s1, node);
}

/// What an id before an assignment symbol is read as.
proof fn lemma_target_read(e: Script, at: int, primary: bool, s: State)
    requires
        0 <= at,
        e.token_at(at) == Some(Token::Id),
        e.token_at(e.skip_spaces(at + 1)) matches Some(symbol) && operation_of(symbol) is Some,
        target_part(e, at, primary).fits(s),
    ensures
        ({
            let id = target_part(e, at, primary);
            let (s1, node) = (id.read)(s);
            &&& id.leads_on(s)
            &&& node == s.nodes.len()
            &&& s1.nodes.len() == s.nodes.len() + 1
            &&& grammar::first_operand(e, s, primary) == Ok::<_, ParserError>((s1, Some(node)))
            &&& s1.nodes[node as int].node matches NodeView::Id(constant) && s1.top()
                == s.top().with_access(constant)
        }),
{
    let id = target_part(e, at, primary);
    parts::lemma_ready(s);
    assert(e.spaced(s) == s);
    reveal_with_fuel(Script::skip_spaces, 2);
    lookups::lemma_read_id(e, at, s);
    let (s1, constant) = lookups::read_id(e, at, s);
    parts::lemma_goes_on(s, s1);
    let end = id.to;
    parts::lemma_moved(s1, end);
    let s2 = s1.moved(end);
    let span = if end == at + 1 {
        e.span(s1)
    } else {
        e.span(s1.moved(at + 2))
    };
    let made = AstNodeView { node: NodeView::Id(constant), span };
    parts::lemma_pushed(s2, made);
    parts::lemma_goes_on_trans(s, s1, s2);
    let s3 = State { nodes: s2.nodes.push(made), ..s2 };
    parts::lemma_goes_on_trans(s, s2, s3);
    assert((id.read)(s) == (s3, s.nodes.len() as u32)) by {
        reveal(Script::id);
    }
    lemma_target_operand(e, s, primary);
    assert(s1.frames.last() == s.top().with_access(constant));
}

proof fn lemma_target_operand(e: Script, s: State, primary: bool)
    requires
        0 <= s.at,
        e.next(s) == Some(Token::Id),
        s.nodes.len() <= u32::MAX,
        e.token_at(e.skip_spaces(s.at + 1)) matches Some(symbol) && operation_of(symbol) is Some,
    ensures
        literals::plain_id(e, s, primary) matches Ok((s1, node)) && grammar::first_operand(
            e,
            s,
            primary,
        ) == Ok::<_, ParserError>((s1, Some(node))),
{
    reveal(grammar::first_operand);
    reveal(grammar::negated);
    reveal(grammar::id_expression);
    reveal(grammar::open_args);
    reveal(Script::id);
    reveal_with_fuel(Script::skip_spaces, 2);
    assert(e.spaced(s) == s);
    assert(grammar::negated(e, s) == Ok::<_, ParserError>((s, None::<AstIndex>)));
    let (s1, found) = e.id(s, primary);
    let constant = found->0;
    let s2 = s1.with_top(s1.top().with_access(constant));
    if primary && e.next(s2) == Some(Token::Whitespace) {
        let (s3, node) = e.add_node(e.taken(s2), NodeView::Id(constant))->Ok_0;
        parts::lemma_no_expression(e, s3, Seq::empty(), 1);
        assert(grammar::open_args(e, s3) == Ok::<_, ParserError>(
            (e.spaced(s3), None::<Seq<AstIndex>>),
        ));
    }
}

// Loops behind their body

/// A loop behind an operand, on its line, has the operand and the expressions before it as its
/// body: in a primary position as a list, elsewhere as a call.
pub proof fn law_loop_behind_operand(
    e: Script,
    s: State,
    lhs: Seq<AstIndex>,
    operand: Part,
    head: Head,
    min_precedence: u8,
)
    requires
        operand.is_operand(e, min_precedence == 0),
        parts::is_on_line(e, operand),
        operand.fits(s),
        head.stands_in(e),
        head.at() == e.skip_spaces(operand.to),
        s.nodes.len() + operand.size + head.size() + 2 <= u32::MAX + 1,
    ensures
        ({
            let (s1, node) = (operand.read)(s);
            let (s2, nodes) = head.read(e, s1.moved(head.at()));
            let (s3, body) = loops::body_before(
                e,
                s2,
                lhs.push(node),
                min_precedence == 0,
            )->Ok_0;
            let (s4, made) = e.add_node(s3, head.node(nodes, body))->Ok_0;
            &&& grammar::expression(e, s, lhs, min_precedence) == Ok::<_, ParserError>(
                (s4, Some(made)),
            )
            &&& s4.at == head.to(e)
            &&& made < s4.nodes.len()
            &&& parts::goes_on(s, s4)
        }),
{
    parts::lemma_is_operand(e, operand, min_precedence == 0, s);
    let (s1, node) = (operand.read)(s);
    parts::lemma_goes_on(s, s1);
    let s2 = s1.moved(head.at());
    parts::lemma_moved(s1, head.at());
    assert(e.spaced(s1) == s2);
    loops::law_loop_behind_body(e, head, s2, lhs.push(node), min_precedence == 0);
    parts::lemma_goes_on_trans(s, s1, s2);
    let (s3, nodes) = head.read(e, s2);
    let (s4, body) = loops::body_before(e, s3, lhs.push(node), min_precedence == 0)->Ok_0;
    let s5 = e.add_node(s4, head.node(nodes, body))->Ok_0.0;
    parts::lemma_goes_on_trans(s, s2, s5);
    assert(grammar::is_loop(e.token_at(head.at())));
    if operand.to == head.at() {
        assert(!grammar::is_range(e.next(s1)));
    } else {
        lemma_space_first(e, operand.to);
    }
    parts::lemma_expression_start(e, s, lhs, min_precedence, s1, node);
    lemma_continued_at_loop(e, s1, lhs.push(node), min_precedence);
}

proof fn lemma_space_first(e: Script, at: int)
    requires
        e.skip_spaces(at) != at,
    ensures
        !grammar::is_range(e.token_at(at)),
{
}

proof fn lemma_continued_at_loop(e: Script, s: State, lhs: Seq<AstIndex>, min_precedence: u8)
    requires
        lhs.len() > 0,
        grammar::is_loop(e.token_at(e.skip_spaces(s.at))),
    ensures
        grammar::continued(e, s, lhs, min_precedence) == grammar::present(
            grammar::loop_form(e, e.spaced(s), Some(lhs), min_precedence == 0),
        ),
{
    reveal(grammar::continued);
}

} // verus!
