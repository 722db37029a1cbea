//! Lookups: keys, indices and calls, one after the other.

use crate::ast::AstNodeView;
use crate::constant_pool::ConstantView;
use crate::error::ParserError;
use crate::forms::calls;
use crate::grammar;
use crate::grouping::{self, Chain};
use crate::node::{AstIndex, LookupNodeView, NodeView};
use crate::parts::{self, Part};
use crate::script::{Script, State};
use crate::token::Token;
use vstd::prelude::*;

verus! {

broadcast use crate::script::group_places;

// Indices

/// An expression in brackets.
pub open spec fn index_part(e: Script, at: int, part: Part) -> Part {
    let to = e.skip_spaces(part.to) + 1;
    Part {
        from: at,
        to,
        read: |s: State|
            {
                let (s1, node) = (part.read)(s.moved(part.from));
                (s1.moved(to), node)
            },
        size: part.size,
    }
}

/// Whether an expression stands in brackets at a place.
pub open spec fn is_index(e: Script, at: int, part: Part) -> bool {
    &&& 0 <= at
    &&& e.token_at(at) == Some(Token::ListStart)
    &&& part.is_expression(e, 1)
    &&& part.starts_behind(e, at + 1)
    &&& !grammar::is_range(e.token_at(part.to))
    &&& e.token_at(e.skip_spaces(part.to)) == Some(Token::ListEnd)
}

/// An index is read as the expression between the brackets, whatever operators it holds, and ends
/// behind the closing bracket.
pub proof fn law_index(e: Script, s: State, part: Part)
    requires
        is_index(e, s.at, part),
        index_part(e, s.at, part).fits(s),
    ensures
        ({
            let whole = index_part(e, s.at, part);
            let (s1, node) = (whole.read)(s);
            &&& grammar::index(e, s) == Ok::<_, ParserError>((s1, node))
            &&& node < s1.nodes.len() <= s.nodes.len() + whole.size
            &&& s1.constants.len() <= s.constants.len() + whole.size
            &&& s1.at == whole.to
            &&& s.at < whole.to <= e.tokens.len()
            &&& parts::goes_on(s, s1)
        }),
{
    reveal(grammar::index);
    let s1 = e.taken(s);
    let s2 = s.moved(part.from);
    assert(e.spaced(s1) == s2);
    parts::lemma_moved(s, part.from);
    parts::lemma_is_expression(e, part, 1, s2);
    let (s3, node) = (part.read)(s2);
    parts::lemma_goes_on(s2, s3);
    parts::lemma_ready(s);
    parts::lemma_expression_behind_spaces(e, s1, Seq::empty(), 1);
    let to = e.skip_spaces(part.to) + 1;
    parts::lemma_moved(s3, to);
    parts::lemma_goes_on_trans(s, s2, s3);
    parts::lemma_goes_on_trans(s, s3, s3.moved(to));
    assert(e.taken(e.spaced(s3)) == s3.moved(to));
}

/// An index that is a chain of operands, with operators of any precedence, is read as the group of
/// all operands, and ends behind the closing bracket.
pub proof fn law_index_takes_whole_chain(e: Script, s: State, chain: Chain)
    requires
        0 <= s.at,
        e.next(s) == Some(Token::ListStart),
        chain.stands_in(e, false),
        chain.starts[0] == e.skip_spaces(s.at + 1),
        grouping::line_before(e, s.at + 1) == grouping::line_before(e, chain.starts[0]),
        e.token_at(grouping::operator_place(e, chain.ends[chain.count()])) == Some(Token::ListEnd),
        s.nodes.len() + chain.size + chain.room(chain.count()) <= u32::MAX + 1,
    ensures
        grammar::index(e, s) matches Ok((s1, node)) && {
            &&& s1.at == grouping::operator_place(e, chain.ends[chain.count()]) + 1
            &&& chain.is_group(e, s1, node, 0, chain.count())
        },
{
    reveal(grammar::index);
    let s1 = e.taken(s);
    let s2 = e.spaced(s1);
    assert forall|j: int| 0 <= j < chain.count() implies grammar::left_precedence(
        #[trigger] chain.operator(e, j),
    ) >= 1 by {
        assert(chain.is_operator_at(e, j));
    }
    grouping::law_operators_are_grouped(e, chain, s2, 1);
    parts::lemma_expression_behind_spaces(e, s1, Seq::empty(), 1);
    let (s3, root) = grammar::expression(e, s2, Seq::empty(), 1)->Ok_0;
    assert(e.spaced(s3) == s3);
    grouping::lemma_group_stays(e, chain, s3, e.taken(s3), root->0, 0, chain.count());
}

// Steps

/// A step of a lookup.
pub enum Step {
    /// A dot and a key.
    Key { at: int },
    /// An expression in brackets.
    Index { at: int, part: Part },
    /// Arguments in parentheses.
    Call { at: int, args: Seq<Part> },
}

impl Step {
    /// Where the step starts.
    pub open spec fn from(self) -> int {
        match self {
            Step::Key { at } => at,
            Step::Index { at, .. } => at,
            Step::Call { at, .. } => at,
        }
    }

    /// Where the step ends.
    pub open spec fn to(self, e: Script) -> int {
        match self {
            Step::Key { at } => at + 2,
            Step::Index { at, part } => index_part(e, at, part).to,
            Step::Call { at, args } => calls::arguments_end(e, at, args),
        }
    }

    /// The most nodes and constants that the step adds.
    pub open spec fn size(self) -> nat {
        match self {
            Step::Key { .. } => 1,
            Step::Index { part, .. } => part.size,
            Step::Call { args, .. } => parts::total_size(args),
        }
    }

    /// Whether the step stands in a script.
    pub open spec fn stands_in(self, e: Script) -> bool {
        match self {
            Step::Key { at } => 0 <= at && e.token_at(at) == Some(Token::Dot) && e.token_at(at + 1)
                == Some(Token::Id),
            Step::Index { at, part } => is_index(e, at, part),
            Step::Call { at, args } => calls::are_arguments(e, at, args),
        }
    }

    /// The state behind the step, and what the step is in its lookup.
    pub open spec fn read(self, e: Script, s: State) -> (State, LookupNodeView) {
        match self {
            Step::Key { at } => {
                let (s1, key) = s.moved(at + 2).add_constant(
                    ConstantView::Str(e.tokens[at + 1].text),
                );
                (s1, LookupNodeView::Id(key))
            },
            Step::Index { at, part } => {
                let (s1, node) = (index_part(e, at, part).read)(s);
                (s1, LookupNodeView::Index(node))
            },
            Step::Call { at, args } => {
                let (s1, nodes) = parts::read_all(args, s.moved(at + 1));
                (s1.moved(calls::arguments_end(e, at, args)), LookupNodeView::Call(nodes))
            },
        }
    }
}

/// The state behind steps, and the steps of their lookup in order, behind those that were read.
pub open spec fn read_steps(
    e: Script,
    steps: Seq<Step>,
    s: State,
    lookup: Seq<LookupNodeView>,
) -> (State, Seq<LookupNodeView>)
    decreases steps.len(),
{
    if steps.len() == 0 {
        (s, lookup)
    } else {
        let (s1, step) = steps[0].read(e, s);
        read_steps(e, steps.drop_first(), s1, lookup.push(step))
    }
}

/// Whether steps stand at a place, each directly behind the one before.
pub open spec fn are_steps(e: Script, at: int, steps: Seq<Step>) -> bool
    decreases steps.len(),
{
    steps.len() > 0 ==> {
        &&& steps[0].from() == at
        &&& steps[0].stands_in(e)
        &&& are_steps(e, steps[0].to(e), steps.drop_first())
    }
}

/// The place behind steps.
pub open spec fn steps_end(e: Script, at: int, steps: Seq<Step>) -> int {
    if steps.len() == 0 {
        at
    } else {
        steps.last().to(e)
    }
}

/// The most nodes and constants that steps add.
pub open spec fn steps_size(steps: Seq<Step>) -> nat
    decreases steps.len(),
{
    if steps.len() == 0 {
        0
    } else {
        steps[0].size() + steps_size(steps.drop_first())
    }
}

/// A step leads to its end.
proof fn lemma_step(e: Script, step: Step, s: State)
    requires
        step.stands_in(e),
        s.at == step.from(),
        parts::is_ready(s),
        s.nodes.len() + step.size() <= u32::MAX + 1,
    ensures
        ({
            let (s1, node) = step.read(e, s);
            &&& s1.at == step.to(e)
            &&& parts::goes_on(s, s1)
            &&& s.at < s1.at <= e.tokens.len()
            &&& s1.nodes.len() <= s.nodes.len() + step.size()
            &&& s1.constants.len() <= s.constants.len() + step.size()
        }),
{
    match step {
        Step::Key { at } => {
            let s1 = s.moved(at + 2);
            let key = ConstantView::Str(e.tokens[at + 1].text);
            parts::lemma_moved(s, at + 2);
            parts::lemma_constant(s1, key);
            parts::lemma_goes_on_trans(s, s1, s1.add_constant(key).0);
        },
        Step::Index { at, part } => {
            law_index(e, s, part);
        },
        Step::Call { at, args } => {
            calls::law_arguments(e, s, args);
            calls::lemma_arguments_sound(e, at, args);
        },
    }
}

/// Where a lookup ends: behind its last step, or behind the spaces there in a primary position.
pub open spec fn lookup_end(e: Script, end: int, primary: bool) -> int {
    if primary && e.token_at(end) == Some(Token::Whitespace) {
        e.skip_spaces(end)
    } else {
        end
    }
}

/// Whether nothing of a lookup follows its last step.
pub open spec fn ends_lookup(e: Script, end: int, primary: bool) -> bool {
    &&& e.token_at(end) != Some(Token::ParenOpen)
    &&& e.token_at(end) != Some(Token::ListStart)
    &&& e.token_at(end) != Some(Token::Dot)
    &&& primary && e.token_at(end) == Some(Token::Whitespace) ==> parts::starts_nothing(e, end)
}

/// A step is read and put behind the others.
proof fn lemma_lookup_step(
    e: Script,
    step: Step,
    s: State,
    primary: bool,
    lookup: Seq<LookupNodeView>,
)
    requires
        step.stands_in(e),
        s.at == step.from(),
        parts::is_ready(s),
        s.nodes.len() + step.size() <= u32::MAX + 1,
    ensures
        ({
            let (s1, node) = step.read(e, s);
            grammar::lookup_from(e, s, primary, lookup) == grammar::lookup_from(
                e,
                s1,
                primary,
                lookup.push(node),
            )
        }),
{
    reveal(grammar::lookup_from);
    lemma_step(e, step, s);
    match step {
        Step::Key { at } => {
            reveal(Script::id);
            assert(e.spaced(e.taken(s)) == e.taken(s));
        },
        Step::Index { at, part } => {
            reveal(grammar::index);
            law_index(e, s, part);
        },
        Step::Call { at, args } => {
            calls::law_arguments(e, s, args);
        },
    }
}

proof fn lemma_lookup(
    e: Script,
    steps: Seq<Step>,
    s: State,
    primary: bool,
    lookup: Seq<LookupNodeView>,
)
    requires
        are_steps(e, s.at, steps),
        parts::is_ready(s),
        s.at <= e.tokens.len(),
        s.nodes.len() + steps_size(steps) <= u32::MAX + 1,
    ensures
        ({
            let (s1, all) = read_steps(e, steps, s, lookup);
            &&& grammar::lookup_from(e, s, primary, lookup) == grammar::lookup_from(
                e,
                s1,
                primary,
                all,
            )
            &&& s1.at == steps_end(e, s.at, steps)
            &&& s1.at <= e.tokens.len()
            &&& parts::goes_on(s, s1)
            &&& s1.nodes.len() <= s.nodes.len() + steps_size(steps)
            &&& s1.constants.len() <= s.constants.len() + steps_size(steps)
        }),
    decreases steps.len(),
{
    if steps.len() > 0 {
        let (s1, step) = steps[0].read(e, s);
        lemma_step(e, steps[0], s);
        parts::lemma_goes_on(s, s1);
        lemma_lookup_step(e, steps[0], s, primary, lookup);
        let rest = steps.drop_first();
        lemma_lookup(e, rest, s1, primary, lookup.push(step));
        parts::lemma_goes_on_trans(s, s1, read_steps(e, rest, s1, lookup.push(step)).0);
        if rest.len() > 0 {
            assert(rest.last() == steps.last());
        }
    } else {
        parts::lemma_moved(s, s.at);
        assert(s.moved(s.at) == s);
    }
}

/// The id that a lookup starts with.
pub open spec fn read_id(e: Script, at: int, s: State) -> (State, u32) {
    let (s1, id) = s.moved(at + 1).add_constant(ConstantView::Str(e.tokens[at].text));
    (s1.with_top(s1.top().with_access(id)), id)
}

pub(crate) proof fn lemma_read_id(e: Script, at: int, s: State)
    requires
        parts::is_ready(s),
        s.at == at,
    ensures
        ({
            let (s1, id) = read_id(e, at, s);
            &&& s1.at == at + 1
            &&& parts::goes_on(s, s1)
            &&& s1.nodes == s.nodes
            &&& s1.constants.len() <= s.constants.len() + 1
        }),
{
    let s1 = s.moved(at + 1);
    let constant = ConstantView::Str(e.tokens[at].text);
    let (s2, id) = s1.add_constant(constant);
    let frame = s2.top().with_access(id);
    parts::lemma_ready(s);
    parts::lemma_moved(s, at + 1);
    parts::lemma_constant(s1, constant);
    parts::lemma_goes_on(s1, s2);
    assert forall|other: u32| #[trigger] frame.access_count(other) <= s2.at by {
        assert(s.top().access_count(other) <= s.at);
    }
    parts::lemma_scope(s2, frame);
    parts::lemma_goes_on_trans(s, s1, s2);
    parts::lemma_goes_on_trans(s, s2, s2.with_top(frame));
}

/// A lookup: an id and the steps behind it.
pub open spec fn lookup_part(e: Script, at: int, steps: Seq<Step>, primary: bool) -> Part {
    let to = lookup_end(e, steps_end(e, at + 1, steps), primary);
    Part {
        from: at,
        to,
        read: |s: State|
            {
                let (s1, id) = read_id(e, at, s);
                let (s2, lookup) = read_steps(e, steps, s1, seq![LookupNodeView::Id(id)]);
                e.add_node(s2.moved(to), NodeView::Lookup(lookup))->Ok_0
            },
        size: steps_size(steps) + 1,
    }
}

/// An id with steps behind it is a lookup: of the id, with the steps in their order. The key of a
/// dot is its id, an index has the node between its brackets, a call has the nodes between its
/// parentheses.
pub proof fn law_lookup(e: Script, at: int, steps: Seq<Step>, primary: bool)
    requires
        0 <= at,
        e.token_at(at) == Some(Token::Id),
        steps.len() > 0,
        are_steps(e, at + 1, steps),
        ends_lookup(e, steps_end(e, at + 1, steps), primary),
    ensures
        lookup_part(e, at, steps, primary).is_term(e, primary),
{
    reveal(Part::is_sound);
    reveal(Part::is_operand);
    reveal(Part::is_term);
    let whole = lookup_part(e, at, steps, primary);
    lemma_steps_places(e, at + 1, steps);
    assert forall|s: State| whole.fits(s) implies {
        let read = #[trigger] (whole.read)(s);
        &&& whole.leads_on(s)
        &&& whole.is_read(s, grammar::first_operand(e, s, primary))
        &&& whole.is_read(s, grammar::term(e, s, primary))
    } by {
        lemma_lookup_at(e, at, steps, primary, s);
    }
}

proof fn lemma_lookup_at(e: Script, at: int, steps: Seq<Step>, primary: bool, s: State)
    requires
        0 <= at,
        e.token_at(at) == Some(Token::Id),
        steps.len() > 0,
        are_steps(e, at + 1, steps),
        ends_lookup(e, steps_end(e, at + 1, steps), primary),
        lookup_part(e, at, steps, primary).fits(s),
    ensures
        ({
            let whole = lookup_part(e, at, steps, primary);
            &&& whole.leads_on(s)
            &&& whole.is_read(s, grammar::first_operand(e, s, primary))
            &&& whole.is_read(s, grammar::term(e, s, primary))
        }),
{
    let whole = lookup_part(e, at, steps, primary);
    let end = steps_end(e, at + 1, steps);
    let (s1, id) = read_id(e, at, s);
    lemma_read_id(e, at, s);
    parts::lemma_goes_on(s, s1);
    let first = seq![LookupNodeView::Id(id)];
    lemma_lookup(e, steps, s1, primary, first);
    let (s2, lookup) = read_steps(e, steps, s1, first);
    parts::lemma_goes_on(s1, s2);
    lemma_lookup_end(e, s2, primary, lookup);
    let s3 = s2.moved(whole.to);
    parts::lemma_moved(s2, whole.to);
    parts::lemma_goes_on_trans(s, s1, s2);
    parts::lemma_goes_on_trans(s, s2, s3);
    parts::lemma_pushed(
        s3,
        AstNodeView { node: NodeView::Lookup(lookup), span: e.span(s3) },
    );
    let (s4, node) = (whole.read)(s);
    parts::lemma_goes_on_trans(s, s3, s4);
    lemma_step_token(e, steps[0]);
    lemma_lookup_of_id(e, s, primary);
}

/// The first token of a step.
proof fn lemma_step_token(e: Script, step: Step)
    requires
        step.stands_in(e),
    ensures
        e.token_at(step.from()) == Some(Token::ParenOpen) || e.token_at(step.from()) == Some(
            Token::ListStart,
        ) || e.token_at(step.from()) == Some(Token::Dot),
{
}

/// A lookup is complete where no step follows.
proof fn lemma_lookup_end(e: Script, s: State, primary: bool, lookup: Seq<LookupNodeView>)
    requires
        0 <= s.at,
        ends_lookup(e, s.at, primary),
    ensures
        grammar::lookup_from(e, s, primary, lookup) == e.add_node(
            s.moved(lookup_end(e, s.at, primary)),
            NodeView::Lookup(lookup),
        ),
{
    reveal(grammar::lookup_from);
    reveal(grammar::open_args);
    if primary && e.token_at(s.at) == Some(Token::Whitespace) {
        reveal_with_fuel(Script::skip_spaces, 2);
        assert(e.skip_spaces(s.at) == e.skip_spaces(s.at + 1));
        let s1 = e.taken(s);
        parts::lemma_no_expression(e, s1, Seq::empty(), 1);
        assert(grammar::open_args(e, s1) == Ok::<_, ParserError>(
            (e.spaced(s1), None::<Seq<AstIndex>>),
        ));
    } else {
        assert(s.moved(s.at) == s);
    }
}

/// An id with a step behind it starts a lookup.
proof fn lemma_lookup_of_id(e: Script, s: State, primary: bool)
    requires
        0 <= s.at,
        e.next(s) == Some(Token::Id),
        e.token_at(s.at + 1) == Some(Token::ParenOpen) || e.token_at(s.at + 1) == Some(
            Token::ListStart,
        ) || e.token_at(s.at + 1) == Some(Token::Dot),
        ({
            let (s1, id) = read_id(e, s.at, s);
            grammar::lookup_from(e, s1, primary, seq![LookupNodeView::Id(id)]) matches Ok(
                (s2, _),
            ) && e.left(s2) < e.left(s)
        }),
    ensures
        ({
            let (s1, id) = read_id(e, s.at, s);
            let outcome = grammar::present(
                grammar::lookup_from(e, s1, primary, seq![LookupNodeView::Id(id)]),
            );
            &&& grammar::first_operand(e, s, primary) == outcome
            &&& grammar::term(e, s, primary) == outcome
        }),
{
    reveal(grammar::first_operand);
    reveal(grammar::negated);
    reveal(grammar::term);
    reveal(grammar::id_expression);
    reveal(grammar::lookup_from);
    reveal(Script::id);
    assert(e.spaced(s) == s);
    assert(grammar::negated(e, s) == Ok::<_, ParserError>((s, None::<AstIndex>)));
}

proof fn lemma_steps_places(e: Script, at: int, steps: Seq<Step>)
    requires
        are_steps(e, at, steps),
        0 <= at <= e.tokens.len(),
    ensures
        at <= steps_end(e, at, steps) <= e.tokens.len(),
        steps.len() > 0 ==> at < steps_end(e, at, steps),
    decreases steps.len(),
{
    if steps.len() > 0 {
        let rest = steps.drop_first();
        match steps[0] {
            Step::Key { at } => {},
            Step::Index { at, part } => {
                parts::lemma_is_expression(e, part, 1, arbitrary());
            },
            Step::Call { at, args } => {
                calls::lemma_arguments_sound(e, at, args);
            },
        }
        lemma_steps_places(e, steps[0].to(e), rest);
        if rest.len() > 0 {
            assert(rest.last() == steps.last());
        }
    }
}

/// A lookup that is called without parentheses.
pub open spec fn lookup_call_part(e: Script, at: int, steps: Seq<Step>, args: Seq<Part>) -> Part {
    let to = calls::open_arguments_end(e, args);
    Part {
        from: at,
        to,
        read: |s: State|
            {
                let (s1, id) = read_id(e, at, s);
                let (s2, lookup) = read_steps(e, steps, s1, seq![LookupNodeView::Id(id)]);
                let (s3, nodes) = parts::read_all(
                    args,
                    s2.moved(steps_end(e, at + 1, steps) + 1),
                );
                e.add_node(
                    s3.moved(to),
                    NodeView::Lookup(lookup.push(LookupNodeView::Call(nodes))),
                )->Ok_0
            },
        size: steps_size(steps) + parts::total_size(args) + 1,
    }
}

/// A lookup in a primary position with expressions behind it ends with a call, which has the nodes
/// of the expressions as its arguments, in their order.
pub proof fn law_lookup_call(e: Script, at: int, steps: Seq<Step>, args: Seq<Part>)
    requires
        0 <= at,
        e.token_at(at) == Some(Token::Id),
        steps.len() > 0,
        are_steps(e, at + 1, steps),
        e.token_at(steps_end(e, at + 1, steps)) == Some(Token::Whitespace),
        calls::are_open_arguments(e, steps_end(e, at + 1, steps) + 1, args),
    ensures
        lookup_call_part(e, at, steps, args).is_term(e, true),
{
    reveal(Part::is_sound);
    reveal(Part::is_operand);
    reveal(Part::is_term);
    let whole = lookup_call_part(e, at, steps, args);
    lemma_steps_places(e, at + 1, steps);
    calls::lemma_open_arguments_sound(e, steps_end(e, at + 1, steps) + 1, args);
    assert forall|s: State| whole.fits(s) implies {
        let read = #[trigger] (whole.read)(s);
        &&& whole.leads_on(s)
        &&& whole.is_read(s, grammar::first_operand(e, s, true))
        &&& whole.is_read(s, grammar::term(e, s, true))
    } by {
        lemma_lookup_call_at(e, at, steps, args, s);
    }
}

proof fn lemma_lookup_call_at(e: Script, at: int, steps: Seq<Step>, args: Seq<Part>, s: State)
    requires
        0 <= at,
        e.token_at(at) == Some(Token::Id),
        steps.len() > 0,
        are_steps(e, at + 1, steps),
        e.token_at(steps_end(e, at + 1, steps)) == Some(Token::Whitespace),
        calls::are_open_arguments(e, steps_end(e, at + 1, steps) + 1, args),
        lookup_call_part(e, at, steps, args).fits(s),
    ensures
        ({
            let whole = lookup_call_part(e, at, steps, args);
            &&& whole.leads_on(s)
            &&& whole.is_read(s, grammar::first_operand(e, s, true))
            &&& whole.is_read(s, grammar::term(e, s, true))
        }),
{
    let whole = lookup_call_part(e, at, steps, args);
    let end = steps_end(e, at + 1, steps);
    calls::lemma_open_arguments_sound(e, end + 1, args);
    let (s1, id) = read_id(e, at, s);
    lemma_read_id(e, at, s);
    parts::lemma_goes_on(s, s1);
    let first = seq![LookupNodeView::Id(id)];
    lemma_lookup(e, steps, s1, true, first);
    let (s2, lookup) = read_steps(e, steps, s1, first);
    parts::lemma_goes_on(s1, s2);
    let s3 = s2.moved(end + 1);
    parts::lemma_moved(s2, end + 1);
    calls::lemma_open_arguments(e, s3, args);
    parts::lemma_read_all(e, end + 1, args, s3);
    let (s4, nodes) = parts::read_all(args, s3);
    parts::lemma_goes_on(s3, s4);
    let s5 = s4.moved(whole.to);
    parts::lemma_moved(s4, whole.to);
    parts::lemma_goes_on_trans(s, s1, s2);
    parts::lemma_goes_on_trans(s, s2, s3);
    parts::lemma_goes_on_trans(s, s3, s4);
    parts::lemma_goes_on_trans(s, s4, s5);
    let call = NodeView::Lookup(lookup.push(LookupNodeView::Call(nodes)));
    parts::lemma_pushed(s5, AstNodeView { node: call, span: e.span(s5) });
    let (s6, node) = (whole.read)(s);
    parts::lemma_goes_on_trans(s, s5, s6);
    assert(grammar::lookup_from(e, s2, true, lookup) == e.add_node(s5, call)) by {
        reveal(grammar::lookup_from);
        reveal(grammar::open_args);
    }
    lemma_step_token(e, steps[0]);
    lemma_lookup_of_id(e, s, true);
}

} // verus!
