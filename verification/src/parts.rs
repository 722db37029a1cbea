//! Parts of a script, and what they are read as.
//!
//! A part stands between two places of a script. It is known by what it is read as: from a state
//! that is ready for it, the state behind it and its node. What the forms of the language are read
//! as is said in [`crate::forms`], over the parts that they are made of.

use crate::ast::AstNodeView;
use crate::constant_pool::ConstantView;
use crate::error::ParserError;
use crate::grammar;
use crate::grouping::{self, Chain};
use crate::node::{AstIndex, NodeView};
use crate::script::{Outcome, Script, State};
use crate::token::{Span, Token};
use vstd::prelude::*;

verus! {

broadcast use crate::script::group_places;

/// A part of a script.
pub struct Part {
    /// Where the part starts.
    pub from: int,
    /// Where the part ends.
    pub to: int,
    /// The state behind the part, and its node or constant.
    pub read: spec_fn(State) -> (State, u32),
    /// The most nodes, and the most constants, that the part adds.
    pub size: nat,
}

/// Whether there is a scope, in which no id has been read more often than there are tokens before.
#[verifier::opaque]
pub open spec fn is_ready(s: State) -> bool {
    &&& 0 <= s.at
    &&& s.frames.len() > 0
    &&& s.top().accesses_within(s.at as nat)
}

/// Whether reading on adds nodes and constants, and changes no scope but the innermost.
#[verifier::opaque]
pub open spec fn goes_on(before: State, after: State) -> bool {
    &&& before.at <= after.at
    &&& grouping::adds_to(before, after)
    &&& after.frames.len() == before.frames.len()
    &&& after.frames.drop_last() == before.frames.drop_last()
    &&& is_ready(after)
}

impl Part {
    /// Whether a state is at the start of the part, and has room for it.
    pub open spec fn fits(self, s: State) -> bool {
        &&& s.at == self.from
        &&& is_ready(s)
        &&& s.nodes.len() + self.size <= u32::MAX + 1
    }

    /// Whether reading the part from a state leads to its end, with no more nodes and constants
    /// than the part adds.
    pub open spec fn leads_on(self, s: State) -> bool {
        let (s1, node) = (self.read)(s);
        &&& s1.at == self.to
        &&& goes_on(s, s1)
        &&& s1.nodes.len() <= s.nodes.len() + self.size
        &&& s1.constants.len() <= s.constants.len() + self.size
    }

    /// Whether the part leads to its end.
    #[verifier::opaque]
    pub open spec fn is_sound(self, e: Script) -> bool {
        &&& 0 <= self.from <= self.to <= e.tokens.len()
        &&& forall|s: State|
            self.fits(s) ==> {
                let read = #[trigger] (self.read)(s);
                self.leads_on(s)
            }
    }

    /// Whether an outcome is that the part has been read.
    pub open spec fn is_read(self, s: State, outcome: Outcome<Option<AstIndex>>) -> bool {
        let (s1, node) = (self.read)(s);
        &&& outcome == Ok::<_, ParserError>((s1, Some(node)))
        &&& node < s1.nodes.len()
    }

    /// Whether the part is an operand.
    #[verifier::opaque]
    pub open spec fn is_operand(self, e: Script, primary: bool) -> bool {
        &&& self.is_sound(e)
        &&& self.from < self.to
        &&& forall|s: State|
            self.fits(s) ==> {
                let read = #[trigger] (self.read)(s);
                self.is_read(s, grammar::first_operand(e, s, primary))
            }
    }

    /// Whether the part is a term, and so an operand.
    #[verifier::opaque]
    pub open spec fn is_term(self, e: Script, primary: bool) -> bool {
        &&& self.is_operand(e, primary)
        &&& forall|s: State|
            self.fits(s) ==> {
                let read = #[trigger] (self.read)(s);
                self.is_read(s, grammar::term(e, s, primary))
            }
    }

    /// Whether the part is an expression, with operators that bind at least as strongly as
    /// `min_precedence`.
    #[verifier::opaque]
    pub open spec fn is_expression(self, e: Script, min_precedence: u8) -> bool {
        &&& self.is_sound(e)
        &&& self.from < self.to
        &&& forall|s: State|
            self.fits(s) ==> {
                let read = #[trigger] (self.read)(s);
                self.is_read(s, grammar::expression(e, s, Seq::empty(), min_precedence))
            }
    }

    /// Whether the part is one expression or several, on the line of the token before it.
    #[verifier::opaque]
    pub open spec fn is_sequence(self, e: Script) -> bool {
        &&& self.is_sound(e)
        &&& self.from < self.to
        &&& forall|s: State|
            self.fits(s) ==> {
                let read = #[trigger] (self.read)(s);
                self.is_read(s, grammar::expressions(e, s, false))
            }
    }

    /// Whether the part is one expression or several, which may start on the next line.
    #[verifier::opaque]
    pub open spec fn is_value(self, e: Script) -> bool {
        &&& self.is_sound(e)
        &&& self.from < self.to
        &&& forall|s: State|
            self.fits(s) ==> {
                let read = #[trigger] (self.read)(s);
                self.is_read(s, grammar::expressions(e, s, true))
            }
    }

    /// Whether the part is a line.
    #[verifier::opaque]
    pub open spec fn is_line(self, e: Script) -> bool {
        &&& self.is_sound(e)
        &&& self.from < self.to
        &&& forall|s: State|
            self.fits(s) ==> {
                let read = #[trigger] (self.read)(s);
                self.is_read(s, grammar::line(e, s))
            }
    }

    /// Whether the part is a block or a map over several lines, indented further than
    /// `current_indent`.
    #[verifier::opaque]
    pub open spec fn is_block(self, e: Script, current_indent: usize) -> bool {
        &&& self.is_sound(e)
        &&& self.from < self.to
        &&& forall|s: State|
            self.fits(s) ==> {
                let read = #[trigger] (self.read)(s);
                self.is_read(s, grammar::map_or_block(e, s, current_indent))
            }
    }

    /// Whether the part starts behind the spaces at a place, on the line that ends there.
    pub open spec fn starts_behind(self, e: Script, at: int) -> bool {
        &&& self.from == e.skip_spaces(at)
        &&& grouping::line_before(e, at) == grouping::line_before(e, self.from)
    }
}

// Reading on

/// A state that is ready has a scope.
pub(crate) proof fn lemma_ready(s: State)
    requires
        is_ready(s),
    ensures
        0 <= s.at,
        s.frames.len() > 0,
        s.top().accesses_within(s.at as nat),
{
    reveal(is_ready);
}

/// What is known of a state that reading on has led to.
pub(crate) proof fn lemma_goes_on(before: State, after: State)
    requires
        goes_on(before, after),
    ensures
        before.at <= after.at,
        grouping::adds_to(before, after),
        before.nodes.len() <= after.nodes.len(),
        after.frames.len() == before.frames.len(),
        after.frames.drop_last() == before.frames.drop_last(),
        is_ready(after),
{
    reveal(goes_on);
}

/// Reading on adds nodes, constants and places.
pub(crate) proof fn lemma_added(before: State, after: State)
    requires
        is_ready(before),
        before.at <= after.at,
        grouping::adds_to(before, after),
        after.frames == before.frames,
    ensures
        goes_on(before, after),
{
    reveal(goes_on);
    reveal(is_ready);
}

/// Reading on adds a node.
pub(crate) proof fn lemma_pushed(s: State, node: AstNodeView)
    requires
        is_ready(s),
    ensures
        goes_on(s, State { nodes: s.nodes.push(node), ..s }),
{
    lemma_added(s, State { nodes: s.nodes.push(node), ..s });
}

/// Reading on adds a constant.
pub(crate) proof fn lemma_constant(s: State, constant: ConstantView)
    requires
        is_ready(s),
    ensures
        goes_on(s, s.add_constant(constant).0),
        s.add_constant(constant).0.constants.len() <= s.constants.len() + 1,
        s.add_constant(constant).0.nodes == s.nodes,
        s.add_constant(constant).0.at == s.at,
{
    lemma_added(s, s.add_constant(constant).0);
}

/// Readiness is not lost at a later place.
pub(crate) proof fn lemma_moved(s: State, at: int)
    requires
        is_ready(s),
        s.at <= at,
    ensures
        goes_on(s, s.moved(at)),
        is_ready(s.moved(at)),
{
    lemma_added(s, s.moved(at));
    lemma_goes_on(s, s.moved(at));
}

/// The innermost scope may change, where no id has been read more often than there are tokens.
pub(crate) proof fn lemma_scope(s: State, frame: crate::frame::FrameView)
    requires
        is_ready(s),
        frame.accesses_within(s.at as nat),
    ensures
        goes_on(s, s.with_top(frame)),
        is_ready(s.with_top(frame)),
        s.with_top(frame).top() == frame,
{
    reveal(goes_on);
    reveal(is_ready);
    assert(s.with_top(frame).frames.drop_last() =~= s.frames.drop_last());
}

/// Reading on twice is reading on.
pub(crate) proof fn lemma_goes_on_trans(a: State, b: State, c: State)
    requires
        goes_on(a, b),
        goes_on(b, c),
    ensures
        goes_on(a, c),
{
    reveal(goes_on);
}

// What parts are known by

/// A sound part leads to its end.
pub(crate) proof fn lemma_sound(e: Script, part: Part, s: State)
    requires
        part.is_sound(e),
    ensures
        0 <= part.from <= part.to <= e.tokens.len(),
        part.fits(s) ==> part.leads_on(s),
{
    reveal(Part::is_sound);
}

/// A part is sound where what it leads to is known.
pub(crate) proof fn lemma_places(e: Script, part: Part)
    requires
        part.is_sound(e),
    ensures
        0 <= part.from <= part.to <= e.tokens.len(),
{
    reveal(Part::is_sound);
}

/// An operand is sound, and is read as one.
pub(crate) proof fn lemma_is_operand(e: Script, part: Part, primary: bool, s: State)
    requires
        part.is_operand(e, primary),
    ensures
        part.is_sound(e),
        0 <= part.from < part.to <= e.tokens.len(),
        part.fits(s) ==> part.is_read(s, grammar::first_operand(e, s, primary)),
        part.fits(s) ==> part.leads_on(s),
{
    reveal(Part::is_operand);
    lemma_sound(e, part, s);
}

/// A term is an operand, and is read as a term.
pub(crate) proof fn lemma_is_term(e: Script, part: Part, primary: bool, s: State)
    requires
        part.is_term(e, primary),
    ensures
        part.is_sound(e),
        part.is_operand(e, primary),
        0 <= part.from < part.to <= e.tokens.len(),
        part.fits(s) ==> part.is_read(s, grammar::term(e, s, primary)),
        part.fits(s) ==> part.leads_on(s),
{
    reveal(Part::is_term);
    reveal(Part::is_operand);
    lemma_sound(e, part, s);
}

/// An expression is sound, and is read as one.
pub(crate) proof fn lemma_is_expression(e: Script, part: Part, min_precedence: u8, s: State)
    requires
        part.is_expression(e, min_precedence),
    ensures
        part.is_sound(e),
        0 <= part.from < part.to <= e.tokens.len(),
        part.fits(s) ==> part.is_read(s, grammar::expression(e, s, Seq::empty(), min_precedence)),
        part.fits(s) ==> part.leads_on(s),
{
    reveal(Part::is_expression);
    lemma_sound(e, part, s);
}

/// Expressions are sound, and are read as such.
pub(crate) proof fn lemma_is_sequence(e: Script, part: Part, s: State)
    requires
        part.is_sequence(e),
    ensures
        part.is_sound(e),
        0 <= part.from < part.to <= e.tokens.len(),
        part.fits(s) ==> part.is_read(s, grammar::expressions(e, s, false)),
        part.fits(s) ==> part.leads_on(s),
{
    reveal(Part::is_sequence);
    lemma_sound(e, part, s);
}

/// A value is sound, and is read as one.
pub(crate) proof fn lemma_is_value(e: Script, part: Part, s: State)
    requires
        part.is_value(e),
    ensures
        part.is_sound(e),
        0 <= part.from < part.to <= e.tokens.len(),
        part.fits(s) ==> part.is_read(s, grammar::expressions(e, s, true)),
        part.fits(s) ==> part.leads_on(s),
{
    reveal(Part::is_value);
    lemma_sound(e, part, s);
}

/// A line is sound, and is read as one.
pub(crate) proof fn lemma_is_line(e: Script, part: Part, s: State)
    requires
        part.is_line(e),
    ensures
        part.is_sound(e),
        0 <= part.from < part.to <= e.tokens.len(),
        part.fits(s) ==> part.is_read(s, grammar::line(e, s)),
        part.fits(s) ==> part.leads_on(s),
{
    reveal(Part::is_line);
    lemma_sound(e, part, s);
}

/// A block is sound, and is read as one.
pub(crate) proof fn lemma_is_block(e: Script, part: Part, current_indent: usize, s: State)
    requires
        part.is_block(e, current_indent),
    ensures
        part.is_sound(e),
        0 <= part.from < part.to <= e.tokens.len(),
        part.fits(s) ==> part.is_read(s, grammar::map_or_block(e, s, current_indent)),
        part.fits(s) ==> part.leads_on(s),
{
    reveal(Part::is_block);
    lemma_sound(e, part, s);
}

// Several parts

/// The state behind parts that are read one after the other, and their nodes in order.
pub open spec fn read_all(parts: Seq<Part>, s: State) -> (State, Seq<u32>)
    decreases parts.len(),
{
    if parts.len() == 0 {
        (s, Seq::empty())
    } else {
        let (s1, nodes) = read_all(parts.drop_last(), s);
        let (s2, node) = (parts.last().read)(s1.moved(parts.last().from));
        (s2, nodes.push(node))
    }
}

/// The most nodes, and the most constants, that parts add.
pub open spec fn total_size(parts: Seq<Part>) -> nat
    decreases parts.len(),
{
    if parts.len() == 0 {
        0
    } else {
        total_size(parts.drop_last()) + parts.last().size
    }
}

/// Whether parts follow each other from a place on.
pub open spec fn are_sound(e: Script, at: int, parts: Seq<Part>) -> bool {
    &&& forall|k: int| 0 <= k < parts.len() ==> (#[trigger] parts[k]).is_sound(e)
    &&& forall|k: int| 0 <= k < parts.len() ==> #[trigger] follows(at, parts, k)
}

/// Whether a part does not start before the end of the part before it.
pub open spec fn follows(at: int, parts: Seq<Part>, k: int) -> bool {
    (if k == 0 {
        at
    } else {
        parts[k - 1].to
    }) <= parts[k].from
}

/// The place behind parts that start behind a place.
pub open spec fn end_of(at: int, parts: Seq<Part>) -> int {
    if parts.len() == 0 {
        at
    } else {
        parts.last().to
    }
}

/// Parts that are read one after the other lead to the end of the last one.
pub(crate) proof fn lemma_read_all(e: Script, at: int, parts: Seq<Part>, s: State)
    requires
        are_sound(e, at, parts),
        is_ready(s),
        s.at == at,
        s.nodes.len() + total_size(parts) <= u32::MAX + 1,
    ensures
        ({
            let (s1, nodes) = read_all(parts, s);
            &&& nodes.len() == parts.len()
            &&& s1.at == end_of(at, parts)
            &&& goes_on(s, s1)
            &&& s1.nodes.len() <= s.nodes.len() + total_size(parts)
            &&& s1.constants.len() <= s.constants.len() + total_size(parts)
        }),
    decreases parts.len(),
{
    if parts.len() > 0 {
        let before = parts.drop_last();
        assert forall|k: int| 0 <= k < before.len() implies (#[trigger] before[k]).is_sound(e) by {
            assert(before[k] == parts[k]);
        }
        assert forall|k: int| 0 <= k < before.len() implies #[trigger] follows(at, before, k) by {
            assert(follows(at, parts, k));
        }
        assert(follows(at, parts, parts.len() - 1));
        lemma_read_all(e, at, before, s);
        let (s1, nodes) = read_all(before, s);
        lemma_goes_on(s, s1);
        assert(parts[parts.len() - 1].is_sound(e));
        lemma_places(e, parts.last());
        lemma_moved(s1, parts.last().from);
        lemma_sound(e, parts.last(), s1.moved(parts.last().from));
        let (s2, node) = (parts.last().read)(s1.moved(parts.last().from));
        lemma_goes_on(s, s1);
        lemma_goes_on_trans(s, s1, s1.moved(parts.last().from));
        lemma_goes_on_trans(s, s1.moved(parts.last().from), s2);
    } else {
        lemma_moved(s, s.at);
    }
}

/// The first parts of several lead to the next one, which fits there.
pub(crate) proof fn lemma_next_part(e: Script, at: int, parts: Seq<Part>, s: State, k: int)
    requires
        are_sound(e, at, parts),
        is_ready(s),
        s.at == at,
        s.nodes.len() + total_size(parts) <= u32::MAX + 1,
        0 <= k <= parts.len(),
    ensures
        ({
            let (s1, nodes) = read_all(parts.take(k), s);
            &&& nodes.len() == k
            &&& s1.at == end_of(at, parts.take(k))
            &&& goes_on(s, s1)
            &&& s1.nodes.len() <= s.nodes.len() + total_size(parts.take(k))
            &&& total_size(parts.take(k)) <= total_size(parts)
            &&& k < parts.len() ==> {
                let (s2, node) = (parts[k].read)(s1.moved(parts[k].from));
                &&& parts[k].fits(s1.moved(parts[k].from))
                &&& read_all(parts.take(k + 1), s) == (s2, nodes.push(node))
                &&& end_of(at, parts.take(k + 1)) == parts[k].to
            }
        }),
    decreases parts.len() - k,
{
    let some = parts.take(k);
    assert forall|j: int| 0 <= j < some.len() implies (#[trigger] some[j]).is_sound(e) by {
        assert(some[j] == parts[j]);
    }
    assert forall|j: int| 0 <= j < some.len() implies #[trigger] follows(at, some, j) by {
        assert(follows(at, parts, j));
    }
    if k < parts.len() {
        assert(follows(at, parts, k));
        lemma_next_part(e, at, parts, s, k + 1);
        let more = parts.take(k + 1);
        assert(more.drop_last() =~= some);
        assert(more.last() == parts[k]);
        assert(parts[k].is_sound(e));
        lemma_read_all(e, at, some, s);
        lemma_goes_on(s, read_all(some, s).0);
        lemma_places(e, parts[k]);
        lemma_moved(read_all(some, s).0, parts[k].from);
    } else {
        assert(some =~= parts);
        lemma_read_all(e, at, some, s);
    }
}

/// Parts that follow a place follow an earlier one.
pub(crate) proof fn lemma_earlier(e: Script, at: int, later: int, parts: Seq<Part>)
    requires
        at <= later,
        are_sound(e, later, parts),
    ensures
        are_sound(e, at, parts),
        parts.len() > 0 ==> end_of(at, parts) == end_of(later, parts),
{
    assert forall|k: int| 0 <= k < parts.len() implies #[trigger] follows(at, parts, k) by {
        assert(follows(later, parts, k));
    }
}

/// Parts are read the same from a state and from a later place; without parts only the place
/// differs.
pub(crate) proof fn lemma_read_from(parts: Seq<Part>, s: State, later: State)
    requires
        later == s.moved(later.at),
    ensures
        parts.len() > 0 ==> read_all(parts, s) == read_all(parts, later),
        parts.len() == 0 ==> read_all(parts, s) == (s, Seq::<u32>::empty()) && read_all(
            parts,
            later,
        ) == (later, Seq::<u32>::empty()),
    decreases parts.len(),
{
    if parts.len() > 0 {
        lemma_read_from(parts.drop_last(), s, later);
        let from = parts.last().from;
        assert(s.moved(from) == later.moved(from));
    }
}

/// As [`lemma_read_from`], for at least one part.
pub(crate) proof fn lemma_first_moves(e: Script, at: int, parts: Seq<Part>, s: State, later: State)
    requires
        later == s.moved(at),
        parts.len() > 0,
    ensures
        read_all(parts, s) == read_all(parts, later),
{
    lemma_read_from(parts, s, later);
}

// Parts with nodes

/// The part whose node is made of the nodes of other parts.
pub open spec fn node_part(
    from: int,
    to: int,
    parts: Seq<Part>,
    make: spec_fn(Seq<u32>) -> NodeView,
    span: Span,
) -> Part {
    Part {
        from,
        to,
        read: |s: State|
            {
                let (s1, nodes) = read_all(parts, s);
                (
                    State {
                        at: to,
                        nodes: s1.nodes.push(AstNodeView { node: make(nodes), span }),
                        ..s1
                    },
                    s1.nodes.len() as u32,
                )
            },
        size: total_size(parts) + 1,
    }
}

/// A part whose node is made of other parts is sound where they are.
pub(crate) proof fn lemma_node_part(
    e: Script,
    from: int,
    to: int,
    parts: Seq<Part>,
    make: spec_fn(Seq<u32>) -> NodeView,
    span: Span,
)
    requires
        0 <= from <= to <= e.tokens.len(),
        are_sound(e, from, parts),
        end_of(from, parts) <= to,
    ensures
        node_part(from, to, parts, make, span).is_sound(e),
        forall|s: State|
            node_part(from, to, parts, make, span).fits(s) ==> {
                let (s1, node) = #[trigger] (node_part(from, to, parts, make, span).read)(s);
                let (s2, nodes) = read_all(parts, s);
                &&& node == s2.nodes.len()
                &&& s2.nodes.len() <= u32::MAX
                &&& s2.moved(to).add_spanned_node(make(nodes), span) == Ok::<_, ParserError>(
                    (s1, node),
                )
            },
{
    reveal(Part::is_sound);
    let part = node_part(from, to, parts, make, span);
    assert forall|s: State| part.fits(s) implies {
        let (s1, node) = #[trigger] (part.read)(s);
        let (s2, nodes) = read_all(parts, s);
        &&& part.leads_on(s)
        &&& node == s2.nodes.len()
        &&& s2.nodes.len() <= u32::MAX
        &&& s2.moved(to).add_spanned_node(make(nodes), span) == Ok::<_, ParserError>((s1, node))
    } by {
        lemma_read_all(e, from, parts, s);
        let (s2, nodes) = read_all(parts, s);
        lemma_goes_on(s, s2);
        lemma_moved(s2, to);
        let (s1, node) = (part.read)(s);
        lemma_pushed(s2.moved(to), AstNodeView { node: make(nodes), span });
        lemma_goes_on_trans(s, s2, s2.moved(to));
        lemma_goes_on_trans(s, s2.moved(to), s1);
    }
}

/// The span of a node that is added at a place.
pub open spec fn span_at(e: Script, at: int) -> Span {
    e.tokens[at - 1].span
}

// Expressions

/// An expression is the same from a place and from behind the spaces there.
pub(crate) proof fn lemma_expression_behind_spaces(
    e: Script,
    s: State,
    lhs: Seq<AstIndex>,
    min_precedence: u8,
)
    requires
        grouping::line_before(e, s.at) == grouping::line_before(e, e.skip_spaces(s.at)),
        0 <= s.at,
        grammar::expression(e, e.spaced(s), lhs, min_precedence) matches Ok((_, Some(_))),
    ensures
        grammar::expression(e, s, lhs, min_precedence) == grammar::expression(
            e,
            e.spaced(s),
            lhs,
            min_precedence,
        ),
{
    reveal(grammar::expression);
    reveal(grammar::first_operand);
    reveal(grammar::negated);
    reveal(grammar::continued);
    let s1 = e.spaced(s);
    assert(e.spaced(s1) == s1);
    let primary = min_precedence == 0;
    assert(grammar::negated(e, s) == grammar::negated(e, s1));
}

/// Behind its first operand, an expression goes on with what follows on the line.
pub(crate) proof fn lemma_expression_start(
    e: Script,
    s: State,
    lhs: Seq<AstIndex>,
    min_precedence: u8,
    s1: State,
    start: AstIndex,
)
    requires
        grammar::first_operand(e, s, min_precedence == 0) == Ok::<_, ParserError>(
            (s1, Some(start)),
        ),
        e.left(s1) < e.left(s),
        !grammar::is_range(e.next(s1)),
    ensures
        grammar::expression(e, s, lhs, min_precedence) == if e.line(s) == e.line(s1) {
            grammar::continued(e, s1, lhs.push(start), min_precedence)
        } else {
            Ok((s1, Some(start)))
        },
{
    reveal(grammar::expression);
    reveal(grammar::first_operand);
    reveal(grammar::continued);
}

/// Whether nothing that can be an expression starts behind the spaces at a place.
pub open spec fn starts_nothing(e: Script, at: int) -> bool {
    let start = e.skip_spaces(at);
    match e.token_at(start) {
        None => true,
        Some(Token::True)
        | Some(Token::False)
        | Some(Token::Number)
        | Some(Token::Str)
        | Some(Token::ParenOpen)
        | Some(Token::Id)
        | Some(Token::Placeholder)
        | Some(Token::ListStart)
        | Some(Token::MapStart)
        | Some(Token::Num2)
        | Some(Token::Num4)
        | Some(Token::If)
        | Some(Token::Function)
        | Some(Token::Copy)
        | Some(Token::Not)
        | Some(Token::Import)
        | Some(Token::NewLineIndented)
        | Some(Token::Error)
        | Some(Token::Range)
        | Some(Token::RangeInclusive) => false,
        Some(Token::Subtract) => e.token_at(start + 1) == Some(Token::Whitespace),
        Some(_) => true,
    }
}

/// Where nothing starts, no term is read.
pub(crate) proof fn lemma_no_term(e: Script, s: State, primary: bool)
    requires
        starts_nothing(e, s.at),
    ensures
        grammar::term(e, s, primary) == Ok::<_, ParserError>((e.spaced(s), None::<AstIndex>)),
{
    reveal(grammar::term);
}

/// Where nothing starts, no expression is read.
pub(crate) proof fn lemma_no_expression(e: Script, s: State, lhs: Seq<AstIndex>, min_precedence: u8)
    requires
        starts_nothing(e, s.at),
    ensures
        grammar::expression(e, s, lhs, min_precedence) == Ok::<_, ParserError>(
            (e.spaced(s), None::<AstIndex>),
        ),
{
    reveal(grammar::expression);
    reveal(grammar::first_operand);
    reveal(grammar::negated);
    reveal(grammar::id_expression);
    reveal(grammar::term);
    reveal(Script::id);
    let primary = min_precedence == 0;
    let s1 = e.spaced(s);
    assert(e.spaced(s1) == s1);
    assert(grammar::negated(e, s) == Ok::<_, ParserError>((s1, None::<AstIndex>)));
    assert(grammar::id_expression(e, s1, primary) == Ok::<_, ParserError>((s1, None::<AstIndex>)));
    lemma_no_term(e, s1, primary);
}

/// A term is the same from a place and from behind the spaces there.
pub(crate) proof fn lemma_term_behind_spaces(e: Script, s: State, primary: bool)
    requires
        e.token_at(e.skip_spaces(s.at)) != Some(Token::NewLineIndented),
    ensures
        grammar::term(e, s, primary) == grammar::term(e, e.spaced(s), primary),
{
    reveal(grammar::term);
    let s1 = e.spaced(s);
    assert(e.spaced(s1) == s1);
}

/// What starts with neither an id nor a minus sign is an operand where it is a term.
pub(crate) proof fn lemma_operand_at(e: Script, s: State, primary: bool)
    requires
        0 <= s.at,
        e.next(s) is Some,
        e.next(s) != Some(Token::Whitespace),
        e.next(s) != Some(Token::NewLineSkipped),
        e.next(s) != Some(Token::Subtract),
        e.next(s) != Some(Token::Id),
        e.next(s) != Some(Token::Placeholder),
    ensures
        grammar::first_operand(e, s, primary) == grammar::term(e, s, primary),
{
    reveal(grammar::first_operand);
    reveal(grammar::negated);
    reveal(grammar::id_expression);
    reveal(grammar::term);
    reveal(Script::id);
    assert(e.spaced(s) == s);
    assert(grammar::negated(e, s) == Ok::<_, ParserError>((s, None::<AstIndex>)));
    assert(grammar::id_expression(e, s, primary) == Ok::<_, ParserError>((s, None::<AstIndex>)));
}

/// One part.
pub open spec fn one(part: Part) -> Seq<Part> {
    Seq::empty().push(part)
}

/// Two parts.
pub open spec fn two(first: Part, second: Part) -> Seq<Part> {
    one(first).push(second)
}

/// Three parts.
pub open spec fn three(first: Part, second: Part, third: Part) -> Seq<Part> {
    two(first, second).push(third)
}

/// One part by itself.
pub(crate) proof fn lemma_one(e: Script, at: int, part: Part)
    ensures
        total_size(one(part)) == part.size,
        end_of(at, one(part)) == part.to,
        part.is_sound(e) && at <= part.from ==> are_sound(e, at, one(part)),
        forall|s: State|
            {
                let (s1, node) = (part.read)(s.moved(part.from));
                #[trigger] read_all(one(part), s) == (s1, Seq::empty().push(node))
            },
{
    lemma_more(e, at, Seq::empty(), part);
}

/// One more part behind others.
pub(crate) proof fn lemma_more(e: Script, at: int, parts: Seq<Part>, part: Part)
    ensures
        total_size(parts.push(part)) == total_size(parts) + part.size,
        end_of(at, parts.push(part)) == part.to,
        are_sound(e, at, parts) && part.is_sound(e) && end_of(at, parts) <= part.from ==> are_sound(
            e,
            at,
            parts.push(part),
        ),
        forall|s: State|
            #![trigger read_all(parts.push(part), s)]
            {
                let (s1, nodes) = read_all(parts, s);
                let (s2, node) = (part.read)(s1.moved(part.from));
                read_all(parts.push(part), s) == (s2, nodes.push(node))
            },
{
    let more = parts.push(part);
    assert(more.drop_last() =~= parts);
    if are_sound(e, at, parts) && part.is_sound(e) && end_of(at, parts) <= part.from {
        assert forall|k: int| 0 <= k < more.len() implies (#[trigger] more[k]).is_sound(e) by {
            if k < parts.len() {
                assert(more[k] == parts[k]);
            }
        }
        assert forall|k: int| 0 <= k < more.len() implies #[trigger] follows(at, more, k) by {
            if k < parts.len() {
                assert(follows(at, parts, k));
            }
        }
    }
}

/// Two parts by themselves.
pub(crate) proof fn lemma_two(e: Script, at: int, first: Part, second: Part)
    ensures
        total_size(two(first, second)) == first.size + second.size,
        end_of(at, two(first, second)) == second.to,
        first.is_sound(e) && second.is_sound(e) && at <= first.from && first.to <= second.from
            ==> are_sound(e, at, two(first, second)),
        forall|s: State|
            {
                let (s1, a) = (first.read)(s.moved(first.from));
                let (s2, b) = (second.read)(s1.moved(second.from));
                #[trigger] read_all(two(first, second), s) == (s2, Seq::empty().push(a).push(b))
            },
{
    lemma_one(e, at, first);
    lemma_more(e, at, one(first), second);
}

/// Three parts by themselves.
pub(crate) proof fn lemma_three(e: Script, at: int, first: Part, second: Part, third: Part)
    ensures
        total_size(three(first, second, third)) == first.size + second.size + third.size,
        end_of(at, three(first, second, third)) == third.to,
        first.is_sound(e) && second.is_sound(e) && third.is_sound(e) && at <= first.from && first.to
            <= second.from && second.to <= third.from ==> are_sound(
            e,
            at,
            three(first, second, third),
        ),
        forall|s: State|
            {
                let (s1, a) = (first.read)(s.moved(first.from));
                let (s2, b) = (second.read)(s1.moved(second.from));
                let (s3, c) = (third.read)(s2.moved(third.from));
                #[trigger] read_all(three(first, second, third), s) == (
                    s3,
                    Seq::empty().push(a).push(b).push(c),
                )
            },
{
    lemma_two(e, at, first, second);
    lemma_more(e, at, two(first, second), third);
}

/// A part and others behind it.
pub(crate) proof fn lemma_joined(e: Script, at: int, first: Part, parts: Seq<Part>)
    ensures
        total_size(one(first) + parts) == first.size + total_size(parts),
        end_of(at, one(first) + parts) == end_of(first.to, parts),
        first.is_sound(e) && at <= first.from && are_sound(e, first.to, parts) ==> are_sound(
            e,
            at,
            one(first) + parts,
        ),
        forall|s: State|
            {
                let (s1, node) = (first.read)(s.moved(first.from));
                let (s2, nodes) = read_all(parts, s1);
                #[trigger] read_all(one(first) + parts, s) == (
                    s2,
                    Seq::empty().push(node) + nodes,
                )
            },
    decreases parts.len(),
{
    let all = one(first) + parts;
    lemma_one(e, at, first);
    if parts.len() == 0 {
        assert(all =~= one(first));
        assert forall|s: State| true implies {
            let (s1, node) = (first.read)(s.moved(first.from));
            let (s2, nodes) = read_all(parts, s1);
            #[trigger] read_all(one(first) + parts, s) == (s2, Seq::empty().push(node) + nodes)
        } by {
            let node = (first.read)(s.moved(first.from)).1;
            assert(read_all(one(first), s).1 =~= Seq::empty().push(node) + Seq::<u32>::empty());
        }
    } else {
        let before = parts.drop_last();
        lemma_joined(e, at, first, before);
        assert(all.drop_last() =~= one(first) + before);
        assert forall|s: State| true implies {
            let (s1, node) = (first.read)(s.moved(first.from));
            let (s2, nodes) = read_all(parts, s1);
            #[trigger] read_all(one(first) + parts, s) == (s2, Seq::empty().push(node) + nodes)
        } by {
            let (s1, node) = (first.read)(s.moved(first.from));
            let (s2, nodes) = read_all(before, s1);
            let last = (parts.last().read)(s2.moved(parts.last().from)).1;
            assert(read_all(one(first) + before, s) == (s2, Seq::empty().push(node) + nodes));
            assert((Seq::empty().push(node) + nodes).push(last) =~= Seq::empty().push(node)
                + nodes.push(last));
        }
        if first.is_sound(e) && at <= first.from && are_sound(e, first.to, parts) {
            assert forall|k: int| 0 <= k < all.len() implies (#[trigger] all[k]).is_sound(e) by {
                if k > 0 {
                    assert(all[k] == parts[k - 1]);
                }
            }
            assert forall|k: int| 0 <= k < all.len() implies #[trigger] follows(at, all, k) by {
                if k > 0 {
                    assert(follows(first.to, parts, k - 1));
                }
            }
        }
    }
}

// Single operands

/// Whether a part ends on the line that it starts on.
pub open spec fn is_on_line(e: Script, part: Part) -> bool {
    grouping::line_before(e, part.from) == grouping::line_before(e, part.to)
}

/// An operand that is an expression by itself. On one line, the spaces behind it are part of it.
pub open spec fn single_part(e: Script, part: Part) -> Part {
    let to = if is_on_line(e, part) {
        grouping::operator_place(e, part.to)
    } else {
        part.to
    };
    Part {
        from: part.from,
        to,
        read: |s: State|
            {
                let (s1, node) = (part.read)(s);
                (s1.moved(to), node)
            },
        size: part.size,
    }
}

/// An operand is an expression where no operator, assignment, loop or range follows it on its line.
pub proof fn law_single(e: Script, part: Part, min_precedence: u8)
    requires
        part.is_operand(e, min_precedence == 0),
        !grammar::is_range(e.token_at(part.to)),
        is_on_line(e, part) ==> grouping::ends_expression(e, part.to),
    ensures
        single_part(e, part).is_expression(e, min_precedence),
{
    reveal(Part::is_sound);
    reveal(Part::is_expression);
    let whole = single_part(e, part);
    grouping::lemma_operator_place(e, part.to);
    lemma_is_operand(e, part, min_precedence == 0, arbitrary());
    assert forall|s: State| whole.fits(s) implies {
        let (s1, node) = #[trigger] (whole.read)(s);
        &&& whole.leads_on(s)
        &&& whole.is_read(s, grammar::expression(e, s, Seq::empty(), min_precedence))
    } by {
        reveal(grammar::expression);
        reveal(grammar::first_operand);
        reveal(grammar::continued);
        lemma_is_operand(e, part, min_precedence == 0, s);
        let (s1, node) = (part.read)(s);
        lemma_goes_on(s, s1);
        lemma_moved(s1, whole.to);
        lemma_goes_on_trans(s, s1, s1.moved(whole.to));
        assert(Seq::<AstIndex>::empty().push(node) =~= seq![node]);
        if is_on_line(e, part) {
            grouping::lemma_continued_at_end(e, s1, node, min_precedence);
        }
    }
}

// Chains

/// The chain of the given operands, with operators at the given places.
pub open spec fn chain_of(operands: Seq<Part>, operators: Seq<int>) -> Chain {
    Chain {
        starts: operands.map_values(|part: Part| part.from),
        ends: operands.map_values(|part: Part| part.to),
        operators,
        read: |j: int, s: State| (operands[j].read)(s),
        size: total_size(operands),
    }
}

/// Whether operands stand on one line each, with operators between them, and nothing behind them
/// that is part of their expression. The first operand may be in a primary position.
pub open spec fn are_chained(
    e: Script,
    operands: Seq<Part>,
    operators: Seq<int>,
    primary: bool,
) -> bool {
    let chain = chain_of(operands, operators);
    &&& operands.len() == operators.len() + 1
    &&& forall|j: int|
        0 <= j < operands.len() ==> {
            let part = #[trigger] operands[j];
            &&& part.is_operand(e, j == 0 && primary)
            &&& grouping::line_before(e, part.from) == grouping::line_before(e, part.to)
            &&& !grammar::is_range(e.token_at(part.to))
        }
    &&& forall|j: int| 0 <= j < operators.len() ==> #[trigger] chain.is_operator_at(e, j)
    &&& grouping::ends_expression(e, operands.last().to)
}

/// The expression that is made of a chain.
pub open spec fn chain_part(
    e: Script,
    operands: Seq<Part>,
    operators: Seq<int>,
    min_precedence: u8,
) -> Part {
    Part {
        from: operands[0].from,
        to: grouping::operator_place(e, operands.last().to),
        read: |s: State|
            {
                let (s1, node) = grammar::expression(e, s, Seq::empty(), min_precedence)->Ok_0;
                (s1, node->0)
            },
        size: (total_size(operands) + chain_of(operands, operators).room(
            operators.len() as int,
        )) as nat,
    }
}

proof fn lemma_within_total(parts: Seq<Part>, k: int)
    requires
        0 <= k < parts.len(),
    ensures
        parts[k].size <= total_size(parts),
    decreases parts.len(),
{
    if k < parts.len() - 1 {
        lemma_within_total(parts.drop_last(), k);
    }
}

/// A chain is an expression, in which its operands are grouped as the operators between them bind.
pub proof fn law_chain(e: Script, operands: Seq<Part>, operators: Seq<int>, min_precedence: u8)
    requires
        are_chained(e, operands, operators, min_precedence == 0),
        forall|j: int|
            0 <= j < operators.len() ==> grammar::left_precedence(
                e.tokens[#[trigger] operators[j]].token,
            ) >= min_precedence,
    ensures
        ({
            let part = chain_part(e, operands, operators, min_precedence);
            let chain = chain_of(operands, operators);
            &&& part.is_expression(e, min_precedence)
            &&& forall|s: State|
                part.fits(s) ==> {
                    let (s1, node) = #[trigger] (part.read)(s);
                    chain.is_group(e, s1, node, 0, chain.count())
                }
        }),
{
    let chain = chain_of(operands, operators);
    let part = chain_part(e, operands, operators, min_precedence);
    let primary = min_precedence == 0;
    let count = operators.len() as int;
    reveal(Part::is_sound);
    reveal(Part::is_expression);
    assert(chain.room(count) >= 0) by (nonlinear_arith)
        requires
            chain.room(count) == count * (chain.size + 1),
            count >= 0,
    ;
    lemma_is_operand(e, operands[0], 0 == 0 && primary, arbitrary());
    lemma_is_operand(e, operands[count], count == 0 && primary, arbitrary());
    assert forall|j: int| 0 <= j < chain.count() implies grammar::left_precedence(
        #[trigger] chain.operator(e, j),
    ) >= min_precedence by {
        assert(chain.operators[j] == operators[j]);
    }
    assert forall|s: State| part.fits(s) implies {
        let (s1, node) = #[trigger] (part.read)(s);
        &&& part.leads_on(s)
        &&& part.is_read(s, grammar::expression(e, s, Seq::empty(), min_precedence))
        &&& chain.is_group(e, s1, node, 0, chain.count())
    } by {
        reveal(is_ready);
        reveal(goes_on);
        let ready = |x: State|
            is_ready(x) && x.frames.len() == s.frames.len() && x.frames.drop_last()
                == s.frames.drop_last();
        assert forall|j: int| 0 <= j <= chain.count() implies #[trigger] chain.is_operand_when(
            e,
            j,
            primary,
            ready,
        ) by {
            let operand = operands[j];
            lemma_is_operand(e, operand, j == 0 && primary, arbitrary());
            lemma_within_total(operands, j);
            assert forall|x: State|
                ready(x) && x.at == chain.starts[j] && x.nodes.len() + chain.size <= u32::MAX
                    + 1 implies {
                let (s1, node) = #[trigger] (chain.read)(j, x);
                &&& grammar::first_operand(e, x, j == 0 && primary) == Ok::<_, ParserError>(
                    (s1, Some(node)),
                )
                &&& ready(s1)
                &&& s1.at == chain.ends[j]
                &&& grouping::adds_to(x, s1)
                &&& node < s1.nodes.len() <= x.nodes.len() + chain.size
                &&& s1.constants.len() <= x.constants.len() + chain.size
            } by {
                lemma_is_operand(e, operand, j == 0 && primary, x);
            }
        }
        grouping::law_operators_are_grouped_when(e, chain, ready, s, min_precedence);
    }
    grouping::lemma_operator_place(e, operands.last().to);
    assert(part.from < part.to) by {
        assert forall|j: int| 0 <= j < operands.len() implies operands[0].from
            < (#[trigger] operands[j]).to by {
            lemma_operands_in_order(e, operands, operators, primary, j);
        }
        assert(operands[0].from < operands[count].to);
    }
}

proof fn lemma_operands_in_order(
    e: Script,
    operands: Seq<Part>,
    operators: Seq<int>,
    primary: bool,
    j: int,
)
    requires
        are_chained(e, operands, operators, primary),
        0 <= j < operands.len(),
    ensures
        operands[0].from < operands[j].to,
    decreases j,
{
    lemma_is_operand(e, operands[j], j == 0 && primary, arbitrary());
    if j > 0 {
        lemma_operands_in_order(e, operands, operators, primary, j - 1);
        let chain = chain_of(operands, operators);
        assert(chain.is_operator_at(e, j - 1));
        grouping::lemma_operator_place(e, operands[j - 1].to);
    }
}

} // verus!
