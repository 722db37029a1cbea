//! Loops, before a block and behind their body.

use crate::ast::AstNodeView;
use crate::constant_pool::ConstantView;
use crate::error::{ParserError, SyntaxError};
use crate::grammar;
use crate::node::{AstForView, AstIndex, NodeView};
use crate::parts::{self, Part};
use crate::script::{Outcome, Script, State};
use crate::token::Token;
use vstd::prelude::*;

verus! {

broadcast use crate::script::group_places;

// Names

/// Where the next name of a `for` loop stands, behind the name at a place: separators between them
/// mean nothing.
pub open spec fn next_name(e: Script, at: int) -> int {
    let end = e.skip_spaces(at + 1);
    if e.token_at(end) == Some(Token::Separator) {
        e.skip_spaces(end + 1)
    } else {
        end
    }
}

/// Whether names stand from a place on, up to the keyword `in`.
pub open spec fn are_names(e: Script, at: int, names: Seq<int>) -> bool
    decreases names.len(),
{
    if names.len() == 0 {
        e.token_at(at) == Some(Token::In)
    } else {
        &&& names[0] == at
        &&& e.token_at(at) == Some(Token::Id) || e.token_at(at) == Some(Token::Placeholder)
        &&& are_names(e, next_name(e, at), names.drop_first())
    }
}

/// The state behind names, and their constants in order, behind those that were read. Each of them
/// is assigned in the innermost scope.
pub open spec fn read_names(e: Script, names: Seq<int>, s: State, args: Seq<u32>) -> (
    State,
    Seq<u32>,
)
    decreases names.len(),
{
    if names.len() == 0 {
        (s, args)
    } else {
        let at = names[0];
        let (s1, id) = s.moved(at + 1).add_constant(ConstantView::Str(e.tokens[at].text));
        let s2 = s1.with_top(s1.top().with_assigned(id)).moved(next_name(e, at));
        read_names(e, names.drop_first(), s2, args.push(id))
    }
}

/// The place of `in` behind names.
pub open spec fn names_end(e: Script, at: int, names: Seq<int>) -> int
    decreases names.len(),
{
    if names.len() == 0 {
        at
    } else {
        names_end(e, next_name(e, names[0]), names.drop_first())
    }
}

proof fn lemma_names(e: Script, names: Seq<int>, s: State, before: int, args: Seq<u32>)
    requires
        are_names(e, s.at, names),
        before <= s.at,
        e.skip_spaces(before) == s.at,
        parts::is_ready(s),
    ensures
        ({
            let (s1, all) = read_names(e, names, s, args);
            &&& grammar::for_args(e, s.moved(before), args) == (s1, all)
            &&& grammar::for_args(e, s, args) == (s1, all)
            &&& s1.at == names_end(e, s.at, names)
            &&& s.at <= s1.at < e.tokens.len()
            &&& e.token_at(s1.at) == Some(Token::In)
            &&& parts::goes_on(s, s1)
            &&& s1.nodes == s.nodes
            &&& s1.constants.len() <= s.constants.len() + names.len()
            &&& all.len() == args.len() + names.len()
        }),
    decreases names.len(),
{
    reveal(grammar::for_args);
    reveal(Script::id);
    let s0 = s.moved(before);
    assert(e.spaced(s0) == s);
    assert(e.spaced(s) == s) by {
        assert(e.skip_spaces(e.skip_spaces(before)) == e.skip_spaces(before));
    }
    if names.len() == 0 {
        parts::lemma_moved(s, s.at);
        assert(s.moved(s.at) == s);
    } else {
        let at = names[0];
        let s1 = s.moved(at + 1);
        parts::lemma_ready(s);
        parts::lemma_moved(s, at + 1);
        let constant = ConstantView::Str(e.tokens[at].text);
        parts::lemma_constant(s1, constant);
        let (s2, id) = s1.add_constant(constant);
        parts::lemma_goes_on(s1, s2);
        let frame = s2.top().with_assigned(id);
        assert forall|other: u32| #[trigger] frame.access_count(other) <= s2.at by {
            assert(s.top().access_count(other) <= s.at);
        }
        parts::lemma_scope(s2, frame);
        let s3 = s2.with_top(frame);
        let end = e.skip_spaces(at + 1);
        let next = next_name(e, at);
        let s4 = s3.moved(next);
        parts::lemma_moved(s3, next);
        parts::lemma_goes_on_trans(s, s1, s2);
        parts::lemma_goes_on_trans(s, s2, s3);
        parts::lemma_goes_on_trans(s, s3, s4);
        let rest = names.drop_first();
        let from = if e.token_at(end) == Some(Token::Separator) {
            end + 1
        } else {
            end
        };
        lemma_names(e, rest, s4, from, args.push(id));
        parts::lemma_goes_on_trans(s, s4, read_names(e, rest, s4, args.push(id)).0);
        assert(s4.moved(from) == if e.token_at(end) == Some(Token::Separator) {
            e.taken(e.spaced(s3))
        } else {
            e.spaced(s3)
        });
    }
}

// Ranges

/// The separator behind a range, or the place behind the last one.
pub open spec fn behind_range(e: Script, part: Part) -> int {
    e.skip_spaces(part.to)
}

/// Whether the `k`th range of a loop stands behind `in` or a separator.
pub open spec fn is_range(e: Script, at: int, ranges: Seq<Part>, k: int) -> bool {
    &&& ranges[k].is_expression(e, 1)
    &&& ranges[k].starts_behind(
        e,
        if k == 0 {
            at + 1
        } else {
            behind_range(e, ranges[k - 1]) + 1
        },
    )
    &&& e.token_at(behind_range(e, ranges[k])) == Some(Token::Separator) <==> k < ranges.len() - 1
}

/// Whether ranges stand behind the keyword `in` at a place, with separators between them.
pub open spec fn are_ranges(e: Script, at: int, ranges: Seq<Part>) -> bool {
    &&& 0 <= at
    &&& ranges.len() > 0
    &&& forall|k: int| 0 <= k < ranges.len() ==> #[trigger] is_range(e, at, ranges, k)
}

proof fn lemma_ranges_sound(e: Script, at: int, ranges: Seq<Part>)
    requires
        are_ranges(e, at, ranges),
    ensures
        parts::are_sound(e, at + 1, ranges),
        at + 1 < ranges.last().to <= e.tokens.len(),
{
    assert forall|k: int| 0 <= k < ranges.len() implies (#[trigger] ranges[k]).is_sound(e) by {
        assert(is_range(e, at, ranges, k));
        parts::lemma_is_expression(e, ranges[k], 1, arbitrary());
    }
    assert forall|k: int| 0 <= k < ranges.len() implies #[trigger] parts::follows(
        at + 1,
        ranges,
        k,
    ) by {
        assert(is_range(e, at, ranges, k));
    }
    lemma_range_order(e, at, ranges, ranges.len() - 1);
    parts::lemma_places(e, ranges[ranges.len() - 1]);
}

proof fn lemma_range_order(e: Script, at: int, ranges: Seq<Part>, k: int)
    requires
        are_ranges(e, at, ranges),
        0 <= k < ranges.len(),
    ensures
        at + 1 < ranges[k].to,
    decreases k,
{
    assert(is_range(e, at, ranges, k));
    parts::lemma_is_expression(e, ranges[k], 1, arbitrary());
    if k > 0 {
        lemma_range_order(e, at, ranges, k - 1);
    }
}

proof fn lemma_ranges_from(e: Script, at: int, ranges: Seq<Part>, s: State, k: int)
    requires
        are_ranges(e, at, ranges),
        parts::is_ready(s),
        s.at == at + 1,
        s.nodes.len() + parts::total_size(ranges) <= u32::MAX + 1,
        0 <= k < ranges.len(),
    ensures
        ({
            let (s1, nodes) = parts::read_all(ranges.take(k), s);
            let (s2, all) = parts::read_all(ranges, s);
            let from = if k == 0 {
                at + 1
            } else {
                behind_range(e, ranges[k - 1]) + 1
            };
            grammar::for_ranges(e, s1.moved(from), nodes) == Ok::<_, ParserError>(
                (s2.moved(behind_range(e, ranges.last())), all),
            )
        }),
    decreases ranges.len() - k,
{
    reveal(grammar::for_ranges);
    lemma_ranges_sound(e, at, ranges);
    parts::lemma_next_part(e, at + 1, ranges, s, k);
    parts::lemma_next_part(e, at + 1, ranges, s, k + 1);
    let (s1, nodes) = parts::read_all(ranges.take(k), s);
    assert(is_range(e, at, ranges, k));
    let from = if k == 0 {
        at + 1
    } else {
        behind_range(e, ranges[k - 1]) + 1
    };
    if k > 0 {
        assert(is_range(e, at, ranges, k - 1));
        lemma_range_order(e, at, ranges, k - 1);
    }
    let s0 = s1.moved(from);
    let s2 = s1.moved(ranges[k].from);
    assert(e.spaced(s0) == s2);
    parts::lemma_is_expression(e, ranges[k], 1, s2);
    parts::lemma_expression_behind_spaces(e, s0, Seq::empty(), 1);
    let (s3, node) = (ranges[k].read)(s2);
    if k < ranges.len() - 1 {
        lemma_ranges_from(e, at, ranges, s, k + 1);
        assert(s3.moved(behind_range(e, ranges[k]) + 1) == e.taken(e.spaced(s3)));
    } else {
        assert(ranges.take(k + 1) =~= ranges);
    }
}

// Heads

/// What a loop has beside its body.
pub enum Head {
    /// `for`, with its names, its ranges, and a condition or none.
    For { at: int, names: Seq<int>, ranges: Seq<Part>, condition: Option<Part> },
    /// `while`, with its condition.
    While { at: int, condition: Part },
    /// `until`, with its condition.
    Until { at: int, condition: Part },
}

/// What the parts of a head are read as.
pub struct HeadNodes {
    pub args: Seq<u32>,
    pub ranges: Seq<AstIndex>,
    pub condition: Option<AstIndex>,
}

impl Head {
    /// Where the loop starts, behind its body if that comes first.
    pub open spec fn at(self) -> int {
        match self {
            Head::For { at, .. } => at,
            Head::While { at, .. } => at,
            Head::Until { at, .. } => at,
        }
    }

    /// The place of the keyword `in`.
    pub open spec fn in_place(self, e: Script) -> int {
        match self {
            Head::For { at, names, .. } => names_end(e, e.skip_spaces(at + 1), names),
            _ => 0,
        }
    }

    /// Where the head ends.
    pub open spec fn to(self, e: Script) -> int {
        match self {
            Head::For { ranges, condition, .. } => match condition {
                Some(part) => part.to,
                None => behind_range(e, ranges.last()),
            },
            Head::While { condition, .. } => condition.to,
            Head::Until { condition, .. } => condition.to,
        }
    }

    /// The most nodes and constants that the head adds.
    pub open spec fn size(self) -> nat {
        match self {
            Head::For { names, ranges, condition, .. } => names.len() + parts::total_size(ranges)
                + (match condition {
                Some(part) => part.size,
                None => 0,
            }),
            Head::While { condition, .. } => condition.size,
            Head::Until { condition, .. } => condition.size,
        }
    }

    /// Whether the head stands in a script.
    pub open spec fn stands_in(self, e: Script) -> bool {
        match self {
            Head::For { at, names, ranges, condition } => {
                let end = behind_range(e, ranges.last());
                &&& 0 <= at
                &&& e.token_at(at) == Some(Token::For)
                &&& names.len() > 0
                &&& are_names(e, e.skip_spaces(at + 1), names)
                &&& are_ranges(e, self.in_place(e), ranges)
                &&& match condition {
                    Some(part) => {
                        &&& e.token_at(end) == Some(Token::If)
                        &&& part.is_expression(e, 0)
                        &&& part.starts_behind(e, end + 1)
                    },
                    None => e.token_at(end) != Some(Token::If),
                }
            },
            Head::While { at, condition } => {
                &&& 0 <= at
                &&& e.token_at(at) == Some(Token::While)
                &&& condition.is_expression(e, 0)
                &&& condition.starts_behind(e, at + 1)
            },
            Head::Until { at, condition } => {
                &&& 0 <= at
                &&& e.token_at(at) == Some(Token::Until)
                &&& condition.is_expression(e, 0)
                &&& condition.starts_behind(e, at + 1)
            },
        }
    }

    /// The state behind the head, and what its parts are read as.
    pub open spec fn read(self, e: Script, s: State) -> (State, HeadNodes) {
        match self {
            Head::For { at, names, ranges, condition } => {
                let (s1, args) = read_names(
                    e,
                    names,
                    s.moved(e.skip_spaces(at + 1)),
                    Seq::empty(),
                );
                let (s2, nodes) = parts::read_all(ranges, s1.moved(self.in_place(e) + 1));
                match condition {
                    Some(part) => {
                        let (s3, node) = (part.read)(s2.moved(part.from));
                        (s3, HeadNodes { args, ranges: nodes, condition: Some(node) })
                    },
                    None => (
                        s2.moved(self.to(e)),
                        HeadNodes { args, ranges: nodes, condition: None },
                    ),
                }
            },
            Head::While { condition, .. } => {
                let (s1, node) = (condition.read)(s.moved(condition.from));
                (s1, HeadNodes { args: Seq::empty(), ranges: Seq::empty(), condition: Some(node) })
            },
            Head::Until { condition, .. } => {
                let (s1, node) = (condition.read)(s.moved(condition.from));
                (s1, HeadNodes { args: Seq::empty(), ranges: Seq::empty(), condition: Some(node) })
            },
        }
    }

    /// The node of the loop with the given body.
    pub open spec fn node(self, nodes: HeadNodes, body: AstIndex) -> NodeView {
        match self {
            Head::For { .. } => NodeView::For(
                AstForView {
                    args: nodes.args,
                    ranges: nodes.ranges,
                    condition: nodes.condition,
                    body,
                },
            ),
            Head::While { .. } => NodeView::While { condition: nodes.condition->0, body },
            Head::Until { .. } => NodeView::Until { condition: nodes.condition->0, body },
        }
    }
}

/// The body of a loop from the state behind its head, and where no body is the error for it.
pub open spec fn body_of(
    e: Script,
    head: Head,
    s: State,
    inline_body: Option<Seq<AstIndex>>,
    primary: bool,
    indent: usize,
) -> Outcome<AstIndex> {
    grammar::loop_body(e, s, inline_body, primary, indent, absent_body(head))
}

/// The error for a loop without a body.
pub open spec fn absent_body(head: Head) -> SyntaxError {
    match head {
        Head::For { .. } => SyntaxError::ExpectedForBody,
        Head::While { .. } => SyntaxError::ExpectedWhileBody,
        Head::Until { .. } => SyntaxError::ExpectedUntilBody,
    }
}

/// A head leads to its end.
pub(crate) proof fn lemma_head(e: Script, head: Head, s: State)
    requires
        head.stands_in(e),
        s.at == head.at(),
        parts::is_ready(s),
        s.nodes.len() + head.size() <= u32::MAX + 1,
    ensures
        ({
            let (s1, nodes) = head.read(e, s);
            &&& s1.at == head.to(e)
            &&& s.at < s1.at <= e.tokens.len()
            &&& parts::goes_on(s, s1)
            &&& s1.nodes.len() <= s.nodes.len() + head.size()
            &&& s1.constants.len() <= s.constants.len() + head.size()
        }),
{
    match head {
        Head::For { at, names, ranges, condition } => {
            lemma_for_head(e, at, names, ranges, condition, s);
        },
        Head::While { at, condition } => {
            lemma_condition(e, at, condition, s);
        },
        Head::Until { at, condition } => {
            lemma_condition(e, at, condition, s);
        },
    }
}

/// A head ends behind its start.
pub(crate) proof fn lemma_places(e: Script, head: Head)
    requires
        head.stands_in(e),
    ensures
        0 <= head.at() < head.to(e) <= e.tokens.len(),
{
    match head {
        Head::For { at, names, ranges, condition } => {
            lemma_ranges_sound(e, head.in_place(e), ranges);
            lemma_names_end(e, e.skip_spaces(at + 1), names);
            if let Some(part) = condition {
                parts::lemma_is_expression(e, part, 0, arbitrary());
            }
        },
        Head::While { at, condition } => {
            parts::lemma_is_expression(e, condition, 0, arbitrary());
        },
        Head::Until { at, condition } => {
            parts::lemma_is_expression(e, condition, 0, arbitrary());
        },
    }
}

proof fn lemma_names_end(e: Script, at: int, names: Seq<int>)
    requires
        are_names(e, at, names),
    ensures
        at <= names_end(e, at, names),
    decreases names.len(),
{
    if names.len() > 0 {
        lemma_names_end(e, next_name(e, at), names.drop_first());
    }
}

/// A condition leads to its end.
proof fn lemma_condition(e: Script, at: int, condition: Part, s: State)
    requires
        0 <= at,
        e.token_at(at) is Some,
        condition.is_expression(e, 0),
        condition.starts_behind(e, at + 1),
        s.at <= at,
        parts::is_ready(s),
        s.nodes.len() + condition.size <= u32::MAX + 1,
    ensures
        ({
            let s0 = s.moved(condition.from);
            let (s1, node) = (condition.read)(s0);
            &&& grammar::expression(e, s.moved(at + 1), Seq::empty(), 0) == Ok::<_, ParserError>(
                (s1, Some(node)),
            )
            &&& condition.leads_on(s0)
            &&& parts::goes_on(s, s1)
            &&& at < condition.from < condition.to <= e.tokens.len()
        }),
{
    let s0 = s.moved(condition.from);
    let s1 = s.moved(at + 1);
    assert(e.spaced(s1) == s0);
    parts::lemma_moved(s, condition.from);
    parts::lemma_is_expression(e, condition, 0, s0);
    parts::lemma_expression_behind_spaces(e, s1, Seq::empty(), 0);
    parts::lemma_goes_on_trans(s, s0, (condition.read)(s0).0);
}

/// The head of a `for` loop leads to its end, step by step.
proof fn lemma_for_head(
    e: Script,
    at: int,
    names: Seq<int>,
    ranges: Seq<Part>,
    condition: Option<Part>,
    s: State,
)
    requires
        (Head::For { at, names, ranges, condition }).stands_in(e),
        s.at == at,
        parts::is_ready(s),
        s.nodes.len() + (Head::For { at, names, ranges, condition }).size() <= u32::MAX + 1,
    ensures
        ({
            let head = Head::For { at, names, ranges, condition };
            let (s0, nodes) = head.read(e, s);
            let (s1, args) = read_names(e, names, s.moved(e.skip_spaces(at + 1)), Seq::empty());
            let s2 = s1.moved(head.in_place(e) + 1);
            let (s3, all) = parts::read_all(ranges, s2);
            let s4 = s3.moved(behind_range(e, ranges.last()));
            &&& grammar::for_args(e, s.moved(at + 1), Seq::empty()) == (s1, args)
            &&& args.len() == names.len()
            &&& s1.at == head.in_place(e)
            &&& e.token_at(s1.at) == Some(Token::In)
            &&& grammar::for_ranges(e, s2, Seq::empty()) == Ok::<_, ParserError>((s4, all))
            &&& all.len() == ranges.len()
            &&& s2.at < s4.at
            &&& grammar::for_condition(e, s4) == Ok::<_, ParserError>((s0, nodes.condition))
            &&& s4.at <= s0.at
            &&& s0.at == head.to(e)
            &&& s.at < s0.at <= e.tokens.len()
            &&& parts::goes_on(s, s0)
            &&& s0.nodes.len() <= s.nodes.len() + head.size()
            &&& s0.constants.len() <= s.constants.len() + head.size()
        }),
{
    let head = Head::For { at, names, ranges, condition };
    let start = s.moved(e.skip_spaces(at + 1));
    parts::lemma_moved(s, start.at);
    lemma_names(e, names, start, at + 1, Seq::empty());
    assert(start.moved(at + 1) == s.moved(at + 1));
    let (s1, args) = read_names(e, names, start, Seq::empty());
    parts::lemma_goes_on(start, s1);
    let s2 = s1.moved(head.in_place(e) + 1);
    parts::lemma_moved(s1, s2.at);
    lemma_ranges_sound(e, head.in_place(e), ranges);
    lemma_ranges_from(e, head.in_place(e), ranges, s2, 0);
    assert(ranges.take(0) =~= Seq::empty());
    assert(s2.moved(s2.at) == s2);
    parts::lemma_read_all(e, s2.at, ranges, s2);
    let (s3, all) = parts::read_all(ranges, s2);
    parts::lemma_goes_on(s2, s3);
    let end = behind_range(e, ranges.last());
    let s4 = s3.moved(end);
    parts::lemma_moved(s3, end);
    parts::lemma_goes_on_trans(s, start, s1);
    parts::lemma_goes_on_trans(s, s1, s2);
    parts::lemma_goes_on_trans(s, s2, s3);
    parts::lemma_goes_on_trans(s, s3, s4);
    reveal(grammar::for_condition);
    assert(e.spaced(s4) == s4);
    if let Some(part) = condition {
        lemma_condition(e, end, part, s3);
        let s5 = s3.moved(part.from);
        assert(s4.moved(end + 1) == s3.moved(end + 1));
        parts::lemma_goes_on_trans(s, s3, (part.read)(s5).0);
    }
}

/// A loop has the parts of its head, and its body: the `for` of its head its names in order, its
/// ranges in order and its condition, the others their condition.
pub proof fn law_loop(
    e: Script,
    head: Head,
    s: State,
    inline_body: Option<Seq<AstIndex>>,
    primary: bool,
)
    requires
        head.stands_in(e),
        s.at == head.at(),
        parts::is_ready(s),
        s.nodes.len() + head.size() <= u32::MAX + 1,
    ensures
        ({
            let (s1, nodes) = head.read(e, s);
            grammar::loop_form(e, s, inline_body, primary) == match body_of(
                e,
                head,
                s1,
                inline_body,
                primary,
                e.indent(s),
            ) {
                Err(x) => Err(x),
                Ok((s2, body)) => e.add_node(s2, head.node(nodes, body)),
            }
        }),
{
    reveal(grammar::loop_form);
    reveal(grammar::for_loop);
    reveal(grammar::while_loop);
    reveal(grammar::until_loop);
    reveal(grammar::loop_body);
    lemma_head(e, head, s);
    match head {
        Head::For { at, names, ranges, condition } => {
            reveal(grammar::for_condition);
            reveal(grammar::for_ranges);
            lemma_for_head(e, at, names, ranges, condition, s);
            let s1 = read_names(e, names, s.moved(e.skip_spaces(at + 1)), Seq::empty()).0;
            assert(e.spaced(s1) == s1);
        },
        Head::While { at, condition } => {
            lemma_condition(e, at, condition, s);
        },
        Head::Until { at, condition } => {
            lemma_condition(e, at, condition, s);
        },
    }
}

// Bodies before a loop

/// The body that is made of expressions before a loop: one by itself, several as a list in a
/// primary position, and elsewhere a call of the first with the others as its arguments.
pub open spec fn body_before(e: Script, s: State, body: Seq<AstIndex>, primary: bool) -> Outcome<
    AstIndex,
> {
    if body.len() == 1 {
        Ok((s, body[0]))
    } else if primary {
        e.add_node(s, NodeView::Expressions(body))
    } else {
        e.add_node(s, NodeView::Call { function: body[0], args: body.skip(1) })
    }
}

/// A loop behind expressions has them as its body.
pub proof fn law_loop_behind_body(
    e: Script,
    head: Head,
    s: State,
    body: Seq<AstIndex>,
    primary: bool,
)
    requires
        head.stands_in(e),
        s.at == head.at(),
        parts::is_ready(s),
        s.nodes.len() + head.size() + 2 <= u32::MAX + 1,
        body.len() > 0,
    ensures
        ({
            let (s1, nodes) = head.read(e, s);
            let (s2, node) = body_before(e, s1, body, primary)->Ok_0;
            let (s3, whole) = e.add_node(s2, head.node(nodes, node))->Ok_0;
            &&& grammar::loop_form(e, s, Some(body), primary) == Ok::<_, ParserError>((s3, whole))
            &&& s3.at == head.to(e)
            &&& whole < s3.nodes.len() <= s.nodes.len() + head.size() + 2
            &&& s3.constants.len() <= s.constants.len() + head.size()
            &&& parts::goes_on(s, s3)
        }),
{
    reveal(grammar::loop_form);
    reveal(grammar::loop_body);
    law_loop(e, head, s, Some(body), primary);
    lemma_head(e, head, s);
    let (s1, nodes) = head.read(e, s);
    parts::lemma_goes_on(s, s1);
    let (s2, node) = body_before(e, s1, body, primary)->Ok_0;
    if body.len() > 1 {
        let made = AstNodeView {
            node: if primary {
                NodeView::Expressions(body)
            } else {
                NodeView::Call { function: body[0], args: body.skip(1) }
            },
            span: e.span(s1),
        };
        parts::lemma_pushed(s1, made);
        parts::lemma_goes_on_trans(s, s1, s2);
        parts::lemma_goes_on(s, s2);
    }
    parts::lemma_pushed(s2, AstNodeView { node: head.node(nodes, node), span: e.span(s2) });
    parts::lemma_goes_on_trans(s, s2, e.add_node(s2, head.node(nodes, node))->Ok_0.0);
}

} // verus!
