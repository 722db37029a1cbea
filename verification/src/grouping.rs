//! How binary operators are grouped.

use crate::constant_pool::ConstantView;
use crate::error::{ParserError, SyntaxError};
use crate::grammar;
use crate::literals;
use crate::node::{AstIndex, AstOp, NodeView};
use crate::number;
use crate::script::{Script, State};
use crate::text;
use crate::token::{self, Token};
use vstd::prelude::*;

verus! {

broadcast use crate::script::group_places;

/// Whether a token is an operator for multiplication.
pub open spec fn is_product(op: Token) -> bool {
    op == Token::Multiply || op == Token::Divide || op == Token::Modulo
}

/// Whether a token is an operator for addition.
pub open spec fn is_sum(op: Token) -> bool {
    op == Token::Add || op == Token::Subtract
}

/// Whether a token is an operator that compares by order.
pub open spec fn is_ordering(op: Token) -> bool {
    op == Token::Greater || op == Token::GreaterOrEqual || op == Token::Less || op
        == Token::LessOrEqual
}

/// Whether a token is an operator that compares for equality.
pub open spec fn is_equality(op: Token) -> bool {
    op == Token::Equal || op == Token::NotEqual
}

/// How strongly a binary operator binds, compared with others.
pub open spec fn level(op: Token) -> nat {
    if is_product(op) {
        6
    } else if is_sum(op) {
        5
    } else if is_ordering(op) {
        4
    } else if is_equality(op) {
        3
    } else if op == Token::And {
        2
    } else if op == Token::Or {
        1
    } else {
        0
    }
}

/// Whether `first` takes the operand between it and `second`, which follows it.
pub open spec fn takes_operand(first: Token, second: Token) -> bool {
    grammar::left_precedence(second) < grammar::right_precedence(first)
}

/// Products bind more strongly than sums, sums more strongly than comparisons by order, these more
/// strongly than comparisons for equality, these more strongly than `and`, and `and` more strongly
/// than `or`. Among operators that bind equally, comparisons group to the right, so that they can
/// be chained, and all others group to the left.
pub proof fn law_precedence(first: Token, second: Token)
    requires
        grammar::is_operator(Some(first)),
        grammar::is_operator(Some(second)),
    ensures
        level(first) > level(second) ==> takes_operand(first, second),
        level(first) < level(second) ==> !takes_operand(first, second),
        level(first) == level(second) ==> (takes_operand(first, second) <==> !is_ordering(first)
            && !is_equality(first)),
{
}

/// Each operator has an operation of its own: the one that it is written for.
pub proof fn law_operations()
    ensures
        grammar::binary_op(Token::Add) == AstOp::Add,
        grammar::binary_op(Token::Subtract) == AstOp::Subtract,
        grammar::binary_op(Token::Multiply) == AstOp::Multiply,
        grammar::binary_op(Token::Divide) == AstOp::Divide,
        grammar::binary_op(Token::Modulo) == AstOp::Modulo,
        grammar::binary_op(Token::Equal) == AstOp::Equal,
        grammar::binary_op(Token::NotEqual) == AstOp::NotEqual,
        grammar::binary_op(Token::Greater) == AstOp::Greater,
        grammar::binary_op(Token::GreaterOrEqual) == AstOp::GreaterOrEqual,
        grammar::binary_op(Token::Less) == AstOp::Less,
        grammar::binary_op(Token::LessOrEqual) == AstOp::LessOrEqual,
        grammar::binary_op(Token::And) == AstOp::And,
        grammar::binary_op(Token::Or) == AstOp::Or,
        forall|token: Token| #[trigger]
            grammar::is_operator(Some(token)) <==> level(token) > 0,
{
}

// Places

/// Where an operator is looked for behind an operand: behind spaces, and on the next line if an
/// operator starts it.
pub open spec fn operator_place(e: Script, at: int) -> int {
    let end = e.skip_spaces(at);
    if (e.token_at(end) == Some(Token::NewLine) || e.token_at(end) == Some(Token::NewLineIndented))
        && grammar::is_operator(e.token_at(e.skip_fillers(end))) {
        e.skip_fillers(end)
    } else {
        end
    }
}

/// An operator is looked for once, and forwards.
pub proof fn lemma_operator_place(e: Script, at: int)
    ensures
        at <= operator_place(e, at),
        at <= e.tokens.len() ==> operator_place(e, at) <= e.tokens.len(),
        operator_place(e, operator_place(e, at)) == operator_place(e, at),
{
}

/// Whether a space or a line break stands at a place.
pub open spec fn is_gap(e: Script, at: int) -> bool {
    ||| e.token_at(at) == Some(Token::Whitespace)
    ||| e.token_at(at) == Some(Token::NewLine)
    ||| e.token_at(at) == Some(Token::NewLineIndented)
}

/// Whether what follows a place is not part of the expression before it: neither an operator with a
/// space or a line break behind it nor an assignment or a loop.
pub open spec fn ends_expression(e: Script, at: int) -> bool {
    e.token_at(operator_place(e, at)) matches Some(token) ==> {
        &&& !grammar::is_loop(Some(token))
        &&& grammar::assign_op(token) is None
        &&& !(grammar::is_operator(Some(token)) && is_gap(e, operator_place(e, at) + 1))
    }
}

/// The line that ends at a place.
pub open spec fn line_before(e: Script, at: int) -> u32 {
    if 0 < at <= e.tokens.len() {
        e.tokens[at - 1].span.end.line
    } else {
        token::first_span().end.line
    }
}

/// Where nothing follows, an expression is complete.
pub proof fn lemma_continued_at_end(e: Script, s: State, lhs: AstIndex, min_precedence: u8)
    requires
        ends_expression(e, s.at),
    ensures
        grammar::continued(e, s, seq![lhs], min_precedence) == Ok::<_, ParserError>(
            (s.moved(operator_place(e, s.at)), Some(lhs)),
        ),
    decreases e.left(s),
{
    reveal(grammar::continued);
    let s1 = e.spaced(s);
    assert(e.spaced(s1) == s1);
    if s1.at != operator_place(e, s.at) {
        let s2 = e.filled(s1);
        assert(e.spaced(s2) == s2);
        lemma_operator_place(e, s.at);
        assert(e.skip_fillers(s1.at) == e.skip_fillers(s1.at + 1));
        lemma_continued_at_end(e, s2, lhs, min_precedence);
    }
}

/// Behind an operand, an operator that binds strongly enough is read, and one that does not is
/// left.
proof fn lemma_continued_at_operator(e: Script, s: State, lhs: AstIndex, min_precedence: u8)
    requires
        grammar::is_operator(e.token_at(operator_place(e, s.at))),
        is_gap(e, operator_place(e, s.at) + 1),
    ensures
        ({
            let s1 = s.moved(operator_place(e, s.at));
            grammar::continued(e, s, seq![lhs], min_precedence) == (
            if grammar::left_precedence(e.tokens[s1.at].token) >= min_precedence {
                match e.past(s1, grammar::operation(e, s1, lhs)) {
                    Err(x) => Err(x),
                    Ok((s2, node)) => grammar::continued(e, s2, seq![node], min_precedence),
                }
            } else {
                Ok((s1, Some(lhs)))
            })
        }),
    decreases e.left(s),
{
    reveal(grammar::continued);
    reveal(grammar::operation);
    let s1 = e.spaced(s);
    assert(e.spaced(s1) == s1);
    if s1.at != operator_place(e, s.at) {
        let s2 = e.filled(s1);
        assert(e.spaced(s2) == s2);
        lemma_operator_place(e, s.at);
        assert(e.skip_fillers(s1.at) == e.skip_fillers(s1.at + 1));
        lemma_continued_at_operator(e, s2, lhs, min_precedence);
    }
}

// Chains

/// Whether an operand behind an operator starts at a place: on the line of the operator, or on the
/// next line, indented further. What starts with a key and a colon there is a map.
pub open spec fn is_operand_behind(e: Script, operator: int, start: int) -> bool {
    let next = e.skip_spaces(operator + 1);
    if e.token_at(next) == Some(Token::NewLineIndented) {
        &&& e.tokens[next].indent > e.tokens[operator].indent
        &&& start == e.skip_fillers(next + 1)
        &&& !(e.token_at(start) == Some(Token::Id) && e.token_at(start + 1) == Some(Token::Colon))
    } else {
        start == next
    }
}

/// A chain of operands with binary operators between them, by their places in a script.
pub struct Chain {
    /// Where each operand starts.
    pub starts: Seq<int>,
    /// Where each operand ends.
    pub ends: Seq<int>,
    /// Where each operator stands, behind the operand of the same number.
    pub operators: Seq<int>,
    /// What each operand is read as: the state behind it, and its node.
    pub read: spec_fn(int, State) -> (State, AstIndex),
    /// The most nodes, and the most constants, that an operand adds.
    pub size: nat,
}

/// Whether nodes and constants were only added.
pub open spec fn adds_to(before: State, after: State) -> bool {
    &&& before.nodes.is_prefix_of(after.nodes)
    &&& before.constants.is_prefix_of(after.constants)
}

impl Chain {
    /// The number of operators.
    pub open spec fn count(self) -> int {
        self.operators.len() as int
    }

    /// The most nodes that a number of operands add, with an operator for each of them.
    pub open spec fn room(self, operands: int) -> int {
        operands * (self.size + 1)
    }

    /// Whether the `j`th operand stands on one line, and is read as the chain says from whatever
    /// state leads to its start. The first operand may be in a primary position.
    pub open spec fn is_operand_at(self, e: Script, j: int, primary: bool) -> bool {
        &&& 0 <= self.starts[j] < self.ends[j] <= e.tokens.len()
        &&& line_before(e, self.starts[j]) == line_before(e, self.ends[j])
        &&& !grammar::is_range(e.token_at(self.ends[j]))
        &&& forall|s: State|
            s.at == self.starts[j] && s.nodes.len() + self.size <= u32::MAX + 1 ==> {
                let (s1, node) = #[trigger] (self.read)(j, s);
                &&& grammar::first_operand(e, s, j == 0 && primary) == Ok::<_, ParserError>(
                    (s1, Some(node)),
                )
                &&& s1.at == self.ends[j]
                &&& adds_to(s, s1)
                &&& node < s1.nodes.len() <= s.nodes.len() + self.size
                &&& s1.constants.len() <= s.constants.len() + self.size
            }
    }

    /// Whether there is an operator behind the `j`th operand, and behind it spaces or a line break
    /// up to the next operand.
    pub open spec fn is_operator_at(self, e: Script, j: int) -> bool {
        &&& self.operators[j] == operator_place(e, self.ends[j])
        &&& grammar::is_operator(e.token_at(self.operators[j]))
        &&& is_gap(e, self.operators[j] + 1)
        &&& is_operand_behind(e, self.operators[j], self.starts[j + 1])
    }

    /// Whether the chain stands in a script, with nothing behind it that is part of its expression.
    /// The first operand may be in a primary position.
    pub open spec fn stands_in(self, e: Script, primary: bool) -> bool {
        &&& self.starts.len() == self.count() + 1
        &&& self.ends.len() == self.count() + 1
        &&& forall|j: int|
            0 <= j <= self.count() ==> #[trigger] self.is_operand_at(e, j, primary)
        &&& forall|j: int| 0 <= j < self.count() ==> #[trigger] self.is_operator_at(e, j)
        &&& ends_expression(e, self.ends[self.count()])
    }

    /// As [`Chain::is_operand_at`], for states that are ready for it.
    pub open spec fn is_operand_when(
        self,
        e: Script,
        j: int,
        primary: bool,
        ready: spec_fn(State) -> bool,
    ) -> bool {
        &&& 0 <= self.starts[j] < self.ends[j] <= e.tokens.len()
        &&& line_before(e, self.starts[j]) == line_before(e, self.ends[j])
        &&& !grammar::is_range(e.token_at(self.ends[j]))
        &&& forall|s: State|
            ready(s) && s.at == self.starts[j] && s.nodes.len() + self.size <= u32::MAX + 1 ==> {
                let (s1, node) = #[trigger] (self.read)(j, s);
                &&& grammar::first_operand(e, s, j == 0 && primary) == Ok::<_, ParserError>(
                    (s1, Some(node)),
                )
                &&& ready(s1)
                &&& s1.at == self.ends[j]
                &&& adds_to(s, s1)
                &&& node < s1.nodes.len() <= s.nodes.len() + self.size
                &&& s1.constants.len() <= s.constants.len() + self.size
            }
    }

    /// As [`Chain::stands_in`], for states that are ready for it.
    pub open spec fn stands_when(
        self,
        e: Script,
        primary: bool,
        ready: spec_fn(State) -> bool,
    ) -> bool {
        &&& self.starts.len() == self.count() + 1
        &&& self.ends.len() == self.count() + 1
        &&& forall|j: int|
            0 <= j <= self.count() ==> #[trigger] self.is_operand_when(e, j, primary, ready)
        &&& forall|j: int| 0 <= j < self.count() ==> #[trigger] self.is_operator_at(e, j)
        &&& ends_expression(e, self.ends[self.count()])
    }

    /// The operator behind the `j`th operand.
    pub open spec fn operator(self, e: Script, j: int) -> Token {
        e.tokens[self.operators[j]].token
    }

    /// Whether the operator behind the operand `split` is the one that is applied last, of those
    /// between the operands `first` and `last`: against it, each operator before it would take an
    /// operand between the two, and so would each operator behind it.
    pub open spec fn is_split(self, e: Script, first: int, last: int, split: int) -> bool {
        &&& first <= split < last
        &&& forall|j: int|
            first <= j < split ==> takes_operand(
                #[trigger] self.operator(e, j),
                self.operator(e, split),
            )
        &&& forall|j: int|
            split < j < last ==> !takes_operand(
                self.operator(e, split),
                #[trigger] self.operator(e, j),
            )
    }

    /// Whether a node is that of the `j`th operand, which was read from the state `from`.
    pub open spec fn is_read_from(self, j: int, from: State, s: State, node: AstIndex) -> bool {
        &&& from.at == self.starts[j]
        &&& from.nodes.len() + self.size <= u32::MAX + 1
        &&& node == (self.read)(j, from).1
        &&& node < (self.read)(j, from).0.nodes.len()
        &&& adds_to((self.read)(j, from).0, s)
    }

    /// Whether a node stands for the operands from `first` to `last`, grouped as the operators
    /// between them bind.
    pub open spec fn is_group(
        self,
        e: Script,
        s: State,
        root: AstIndex,
        first: int,
        last: int,
    ) -> bool
        decreases last - first,
    {
        &&& root < s.nodes.len()
        &&& if first >= last {
            exists|from: State| #[trigger] self.is_read_from(first, from, s, root)
        } else {
            s.nodes[root as int].node matches NodeView::BinaryOp { op, lhs, rhs } && exists|
                split: int,
            |
                {
                    &&& #[trigger] self.is_split(e, first, last, split)
                    &&& op == grammar::binary_op(self.operator(e, split))
                    &&& self.is_group(e, s, lhs, first, split)
                    &&& self.is_group(e, s, rhs, split + 1, last)
                }
        }
    }
}

/// Of the operators between two operands of a chain, one is applied last. So a chain is grouped in
/// one way.
pub proof fn law_one_operator_is_last(
    e: Script,
    chain: Chain,
    first: int,
    last: int,
    split: int,
    other: int,
)
    requires
        chain.is_split(e, first, last, split),
        chain.is_split(e, first, last, other),
    ensures
        split == other,
{
    if split < other {
        assert(takes_operand(chain.operator(e, split), chain.operator(e, other)));
    }
    if other < split {
        assert(takes_operand(chain.operator(e, other), chain.operator(e, split)));
    }
}

/// Whether being ready depends on the scopes alone, and is not lost further on.
pub open spec fn stays_ready(ready: spec_fn(State) -> bool) -> bool {
    forall|s: State, s1: State| #[trigger]
        ready(s) && s1.frames == s.frames && s.at <= s1.at ==> #[trigger] ready(s1)
}

/// A group stays one when nodes and constants are added.
pub proof fn lemma_group_stays(
    e: Script,
    chain: Chain,
    s: State,
    more: State,
    root: AstIndex,
    first: int,
    last: int,
)
    requires
        chain.is_group(e, s, root, first, last),
        adds_to(s, more),
    ensures
        chain.is_group(e, more, root, first, last),
    decreases last - first,
{
    assert(more.nodes[root as int] == s.nodes[root as int]);
    if first >= last {
        let from = choose|from: State| #[trigger] chain.is_read_from(first, from, s, root);
        let read = (chain.read)(first, from).0;
        assert(read.nodes.is_prefix_of(more.nodes));
        assert(read.constants.is_prefix_of(more.constants));
        assert(chain.is_read_from(first, from, more, root));
    } else if let NodeView::BinaryOp { op, lhs, rhs } = s.nodes[root as int].node {
        let split = choose|split: int|
            {
                &&& #[trigger] chain.is_split(e, first, last, split)
                &&& op == grammar::binary_op(chain.operator(e, split))
                &&& chain.is_group(e, s, lhs, first, split)
                &&& chain.is_group(e, s, rhs, split + 1, last)
            };
        lemma_group_stays(e, chain, s, more, lhs, first, split);
        lemma_group_stays(e, chain, s, more, rhs, split + 1, last);
        assert(chain.is_split(e, first, last, split));
    }
}

/// The room for operands is that for some of them and that for the others.
proof fn lemma_room(chain: Chain, some: int, others: int)
    ensures
        chain.room(some + others) == chain.room(some) + chain.room(others),
        chain.room(1) == chain.size + 1,
        others >= 0 ==> chain.room(others) >= 0,
{
    let size = chain.size as int + 1;
    assert((some + others) * size == some * size + others * size) by (nonlinear_arith);
    assert(others >= 0 ==> others * size >= 0) by (nonlinear_arith)
        requires
            size > 0,
    ;
}

/// An expression that starts with an operand goes on behind it.
proof fn lemma_expression_at_operand(
    e: Script,
    chain: Chain,
    primary: bool,
    ready: spec_fn(State) -> bool,
    j: int,
    s: State,
    min_precedence: u8,
)
    requires
        chain.is_operand_when(e, j, primary, ready),
        ready(s),
        j == 0 && primary <==> min_precedence == 0,
        s.at == chain.starts[j],
        s.nodes.len() + chain.size <= u32::MAX + 1,
    ensures
        ({
            let (s1, node) = (chain.read)(j, s);
            &&& grammar::expression(e, s, Seq::empty(), min_precedence) == grammar::continued(
                e,
                s1,
                seq![node],
                min_precedence,
            )
            &&& chain.is_group(e, s1, node, j, j)
        }),
{
    reveal(grammar::expression);
    reveal(grammar::continued);
    let (s1, node) = (chain.read)(j, s);
    assert(Seq::<AstIndex>::empty().push(node) =~= seq![node]);
    assert(chain.is_read_from(j, s, s1, node));
}

/// A binary operator takes the expression to its right.
proof fn lemma_operation(
    e: Script,
    chain: Chain,
    primary: bool,
    ready: spec_fn(State) -> bool,
    j: int,
    s: State,
    lhs: AstIndex,
)
    requires
        0 <= j,
        chain.is_operator_at(e, j),
        chain.is_operand_when(e, j + 1, primary, ready),
        ready(s.moved(chain.starts[j + 1])),
        s.at == chain.operators[j],
        s.nodes.len() + chain.size <= u32::MAX + 1,
    ensures
        ({
            let (s1, node) = (chain.read)(j + 1, s.moved(chain.starts[j + 1]));
            let op = chain.operator(e, j);
            &&& grammar::operation(e, s, lhs) == match grammar::continued(
                e,
                s1,
                seq![node],
                grammar::right_precedence(op),
            ) {
                Err(x) => Err(x),
                Ok((s2, None)) => e.refused(s2, SyntaxError::ExpectedRhsExpression),
                Ok((s2, Some(rhs))) => e.add_node(
                    s2,
                    NodeView::BinaryOp { op: grammar::binary_op(op), lhs, rhs },
                ),
            }
            &&& chain.is_group(e, s1, node, j + 1, j + 1)
        }),
{
    reveal(grammar::operation);
    reveal(grammar::map_block);
    reveal(grammar::map_block_at);
    reveal(grammar::expression);
    let s1 = e.taken(s);
    let s2 = s.moved(chain.starts[j + 1]);
    let next = e.skip_spaces(s1.at);
    if e.token_at(next) == Some(Token::NewLineIndented) {
        assert(e.filled(e.taken(e.spaced(s1))) == s2);
        assert(e.filled(s2) == s2);
    } else {
        assert(e.spaced(s1) == s2);
    }
    assert(grammar::map_block(e, s1, e.indent(s1), None) == Ok::<_, ParserError>(
        (s2, None::<AstIndex>),
    ));
    lemma_expression_at_operand(
        e,
        chain,
        primary,
        ready,
        j + 1,
        s2,
        grammar::right_precedence(chain.operator(e, j)),
    );
}

/// Behind operands of a chain that are grouped, more operands are read and grouped, up to the first
/// operator that does not bind strongly enough.
proof fn lemma_chain(
    e: Script,
    chain: Chain,
    primary: bool,
    ready: spec_fn(State) -> bool,
    s: State,
    lhs: AstIndex,
    first: int,
    last: int,
    min_precedence: u8,
) -> (end: int)
    requires
        stays_ready(ready),
        chain.stands_when(e, primary, ready),
        ready(s),
        0 <= first <= last <= chain.count(),
        operator_place(e, s.at) == operator_place(e, chain.ends[last]),
        chain.is_group(e, s, lhs, first, last),
        last < chain.count() ==> forall|j: int|
            first <= j < last ==> takes_operand(
                #[trigger] chain.operator(e, j),
                chain.operator(e, last),
            ),
        s.nodes.len() + chain.room(chain.count() - last) <= u32::MAX + 1,
    ensures
        last <= end <= chain.count(),
        forall|j: int|
            last <= j < end ==> grammar::left_precedence(#[trigger] chain.operator(e, j))
                >= min_precedence,
        end < chain.count() ==> grammar::left_precedence(chain.operator(e, end)) < min_precedence,
        grammar::continued(e, s, seq![lhs], min_precedence) matches Ok((s1, Some(root))) && {
            &&& s.at <= s1.at == operator_place(e, chain.ends[end])
            &&& ready(s1)
            &&& adds_to(s, s1)
            &&& s1.nodes.len() <= s.nodes.len() + chain.room(end - last)
            &&& s1.constants.len() <= s.constants.len() + chain.room(end - last)
            &&& chain.is_group(e, s1, root, first, end)
        },
    decreases chain.count() - last,
{
    lemma_operator_place(e, s.at);
    lemma_operator_place(e, chain.ends[last]);
    lemma_room(chain, 0, 0);
    if last == chain.count() {
        lemma_continued_at_end(e, s, lhs, min_precedence);
        let s1 = s.moved(operator_place(e, s.at));
        assert(ready(s1));
        lemma_group_stays(e, chain, s, s1, lhs, first, last);
        last
    } else {
        assert(chain.is_operator_at(e, last));
        assert(chain.is_operand_when(e, last + 1, primary, ready));
        lemma_continued_at_operator(e, s, lhs, min_precedence);
        let s1 = s.moved(chain.operators[last]);
        assert(ready(s1));
        assert(ready(s1.moved(chain.starts[last + 1])));
        let op = chain.operator(e, last);
        lemma_group_stays(e, chain, s, s1, lhs, first, last);
        if grammar::left_precedence(op) < min_precedence {
            last
        } else {
            lemma_room(chain, 1, chain.count() - last - 1);
            lemma_operation(e, chain, primary, ready, last, s1, lhs);
            let (s3, node) = (chain.read)(last + 1, s1.moved(chain.starts[last + 1]));
            let right = grammar::right_precedence(op);
            let middle = lemma_chain(
                e,
                chain,
                primary,
                ready,
                s3,
                node,
                last + 1,
                last + 1,
                right,
            );
            let (s4, found) = grammar::continued(e, s3, seq![node], right)->Ok_0;
            let rhs = found->0;
            lemma_room(chain, middle - last - 1, chain.count() - middle);
            lemma_room(chain, 1, middle - last - 1);
            let (s5, root) = e.add_node(
                s4,
                NodeView::BinaryOp { op: grammar::binary_op(op), lhs, rhs },
            )->Ok_0;
            assert(adds_to(s, s5));
            assert(ready(s5));
            assert(adds_to(s4, s5));
            lemma_group_stays(e, chain, s, s5, lhs, first, last);
            lemma_group_stays(e, chain, s4, s5, rhs, last + 1, middle);
            assert(chain.is_split(e, first, middle, last));
            assert(chain.is_group(e, s5, root, first, middle));
            assert(grammar::operation(e, s1, lhs) == Ok::<_, ParserError>((s5, root)));
            lemma_operator_place(e, chain.ends[middle]);
            if middle < chain.count() {
                assert forall|j: int| first <= j < middle implies takes_operand(
                    #[trigger] chain.operator(e, j),
                    chain.operator(e, middle),
                ) by {
                    assert(chain.is_operator_at(e, j));
                    assert(chain.is_operator_at(e, middle));
                }
            }
            assert(chain.is_operand_when(e, middle, primary, ready));
            let end = lemma_chain(
                e,
                chain,
                primary,
                ready,
                s5,
                root,
                first,
                middle,
                min_precedence,
            );
            lemma_room(chain, middle - last, end - middle);
            assert forall|j: int| last <= j < end implies grammar::left_precedence(
                #[trigger] chain.operator(e, j),
            ) >= min_precedence by {
                assert(chain.is_operator_at(e, j));
            }
            end
        }
    }
}

/// The operands of a chain are grouped as the operators between them bind: of the operators, the
/// one that is applied last splits the chain, and the parts before and behind it are grouped
/// likewise. So `a op b op c` is `(a op b) op c` where the first operator takes `b`, and it is
/// `a op (b op c)` where the second does.
pub proof fn law_operators_are_grouped(e: Script, chain: Chain, s: State, min_precedence: u8)
    requires
        chain.stands_in(e, min_precedence == 0),
        s.at == chain.starts[0],
        s.nodes.len() + chain.size + chain.room(chain.count()) <= u32::MAX + 1,
        forall|j: int|
            0 <= j < chain.count() ==> grammar::left_precedence(#[trigger] chain.operator(e, j))
                >= min_precedence,
    ensures
        grammar::expression(e, s, Seq::empty(), min_precedence) matches Ok((s1, Some(root))) && {
            &&& s1.at == operator_place(e, chain.ends[chain.count()])
            &&& s1.constants.len() <= s.constants.len() + chain.size + chain.room(chain.count())
            &&& s1.nodes.len() <= s.nodes.len() + chain.size + chain.room(chain.count())
            &&& s.at <= s1.at
            &&& adds_to(s, s1)
            &&& chain.is_group(e, s1, root, 0, chain.count())
        },
{
    let ready = |s: State| true;
    let primary = min_precedence == 0;
    assert forall|j: int| 0 <= j <= chain.count() implies #[trigger] chain.is_operand_when(
        e,
        j,
        primary,
        ready,
    ) by {
        assert(chain.is_operand_at(e, j, primary));
    }
    law_operators_are_grouped_when(e, chain, ready, s, min_precedence);
}

/// As [`law_operators_are_grouped`], where the operands are read as the chain says from the states
/// that are ready for it, and leave a state that is.
pub proof fn law_operators_are_grouped_when(
    e: Script,
    chain: Chain,
    ready: spec_fn(State) -> bool,
    s: State,
    min_precedence: u8,
)
    requires
        stays_ready(ready),
        chain.stands_when(e, min_precedence == 0, ready),
        ready(s),
        s.at == chain.starts[0],
        s.nodes.len() + chain.size + chain.room(chain.count()) <= u32::MAX + 1,
        forall|j: int|
            0 <= j < chain.count() ==> grammar::left_precedence(#[trigger] chain.operator(e, j))
                >= min_precedence,
    ensures
        grammar::expression(e, s, Seq::empty(), min_precedence) matches Ok((s1, Some(root))) && {
            &&& s1.at == operator_place(e, chain.ends[chain.count()])
            &&& s1.constants.len() <= s.constants.len() + chain.size + chain.room(chain.count())
            &&& s1.nodes.len() <= s.nodes.len() + chain.size + chain.room(chain.count())
            &&& s.at <= s1.at
            &&& ready(s1)
            &&& adds_to(s, s1)
            &&& chain.is_group(e, s1, root, 0, chain.count())
        },
{
    assert(chain.is_operand_when(e, 0, min_precedence == 0, ready));
    lemma_room(chain, 0, chain.count());
    lemma_expression_at_operand(e, chain, min_precedence == 0, ready, 0, s, min_precedence);
    let (s1, node) = (chain.read)(0, s);
    let end = lemma_chain(
        e,
        chain,
        min_precedence == 0,
        ready,
        s1,
        node,
        0,
        0,
        min_precedence,
    );
    assert(end == chain.count());
}

// Chains of simple operands

/// Whether a simple operand stands at a place: a literal, or an id without a call or a lookup
/// directly behind it.
pub open spec fn is_simple(e: Script, at: int) -> bool {
    literals::is_literal(e, at) || literals::is_plain_id(e, at)
}

/// What a simple operand is read as.
pub open spec fn simple_operand(e: Script, s: State, primary: bool) -> (State, AstIndex) {
    if literals::is_literal(e, s.at) {
        literals::literal(e, s)->Ok_0
    } else {
        literals::plain_id(e, s, primary)->Ok_0
    }
}

/// Whether a node is the one for the simple operand at a place.
pub open spec fn is_simple_node(e: Script, at: int, s: State, node: NodeView) -> bool {
    match e.tokens[at].token {
        Token::True => node == NodeView::BoolTrue,
        Token::False => node == NodeView::BoolFalse,
        Token::Number => match node {
            NodeView::Number0 => number::is_near_zero(e.tokens[at].number->0),
            NodeView::Number1 => number::is_near_one(e.tokens[at].number->0),
            NodeView::Number(constant) => constant < s.constants.len()
                && s.constants[constant as int] == ConstantView::Number(e.tokens[at].number->0),
            _ => false,
        },
        Token::Str => match node {
            NodeView::Str(constant) => constant < s.constants.len()
                && s.constants[constant as int] == ConstantView::Str(
                text::unquoted(e.tokens[at].text),
            ),
            _ => false,
        },
        _ => match node {
            NodeView::Id(constant) => constant < s.constants.len()
                && s.constants[constant as int] == ConstantView::Str(e.tokens[at].text),
            _ => false,
        },
    }
}

/// Whether the spaces behind the `j`th operand are taken with it: an id in a primary position may
/// have arguments.
pub open spec fn takes_spaces(e: Script, starts: Seq<int>, j: int, primary: bool) -> bool {
    &&& j == 0
    &&& primary
    &&& e.token_at(starts[j]) == Some(Token::Id)
    &&& e.token_at(starts[j] + 1) == Some(Token::Whitespace)
}

/// The chain of the simple operands and the operators at the given places.
pub open spec fn simple_chain(
    e: Script,
    starts: Seq<int>,
    operators: Seq<int>,
    primary: bool,
) -> Chain {
    Chain {
        starts,
        ends: Seq::new(
            starts.len(),
            |j: int|
                if takes_spaces(e, starts, j, primary) {
                    e.skip_spaces(starts[j] + 1)
                } else {
                    starts[j] + 1
                },
        ),
        operators,
        read: |j: int, s: State| simple_operand(e, s, j == 0 && primary),
        size: 1,
    }
}

/// Whether simple operands stand at the given places, with operators between them, and nothing
/// behind them that is part of their expression. An operand that takes the spaces behind it has an
/// operator behind them, on its line.
pub open spec fn are_simple(
    e: Script,
    starts: Seq<int>,
    operators: Seq<int>,
    primary: bool,
) -> bool {
    let chain = simple_chain(e, starts, operators, primary);
    &&& starts.len() == operators.len() + 1
    &&& forall|j: int|
        0 <= j < starts.len() ==> {
            &&& is_simple(e, #[trigger] starts[j])
            &&& e.tokens[starts[j]].span.end.line == line_before(e, starts[j])
            &&& !grammar::is_range(e.token_at(starts[j] + 1))
        }
    &&& forall|j: int| 0 <= j < operators.len() ==> #[trigger] chain.is_operator_at(e, j)
    &&& takes_spaces(e, starts, 0, primary) ==> {
        &&& operators.len() > 0
        &&& operators[0] == e.skip_spaces(starts[0] + 1)
        &&& e.token_at(operators[0] + 1) == Some(Token::Whitespace)
        &&& line_before(e, operators[0]) == line_before(e, starts[0])
    }
    &&& ends_expression(e, chain.ends.last())
}

/// A simple operand adds its node, and at most one constant.
pub proof fn lemma_simple_operand(e: Script, s: State, primary: bool)
    requires
        is_simple(e, s.at),
        s.nodes.len() <= u32::MAX,
    ensures
        ({
            let (s1, node) = simple_operand(e, s, primary);
            &&& node == s.nodes.len()
            &&& s1.at == if literals::is_literal(e, s.at) || !takes_spaces(
                e,
                seq![s.at],
                0,
                primary,
            ) {
                s.at + 1
            } else {
                e.skip_spaces(s.at + 1)
            }
            &&& s1.nodes.len() == s.nodes.len() + 1
            &&& s1.constants.len() <= s.constants.len() + 1
            &&& adds_to(s, s1)
            &&& s1.constants.len() <= u32::MAX + 1 ==> is_simple_node(
                e,
                s.at,
                s1,
                s1.nodes[node as int].node,
            )
        }),
{
    reveal(grammar::number);
    reveal(grammar::string);
    reveal(Script::id);
    reveal_with_fuel(Script::skip_spaces, 2);
    assert(e.spaced(s) == s);
    let (s1, node) = simple_operand(e, s, primary);
    assert(s.nodes.is_prefix_of(s1.nodes));
    assert(s.constants.is_prefix_of(s1.constants));
}

/// Literals and ids are grouped as the operators between them bind, and each of them has its node.
pub proof fn law_simple_operands_are_grouped(
    e: Script,
    starts: Seq<int>,
    operators: Seq<int>,
    s: State,
    min_precedence: u8,
)
    requires
        are_simple(e, starts, operators, min_precedence == 0),
        s.at == starts[0],
        s.nodes.len() + 2 * operators.len() <= u32::MAX,
        s.constants.len() + 2 * operators.len() <= u32::MAX,
        forall|j: int|
            0 <= j < operators.len() ==> grammar::left_precedence(
                e.tokens[#[trigger] operators[j]].token,
            ) >= min_precedence,
    ensures
        grammar::expression(e, s, Seq::empty(), min_precedence) matches Ok((s1, Some(root))) && {
            let chain = simple_chain(e, starts, operators, min_precedence == 0);
            &&& s1.at == operator_place(e, chain.ends.last())
            &&& adds_to(s, s1)
            &&& chain.is_group(e, s1, root, 0, chain.count())
            &&& forall|j: int, from: State, node: AstIndex|
                0 <= j <= chain.count() && #[trigger] chain.is_read_from(j, from, s1, node)
                    ==> is_simple_node(e, starts[j], s1, s1.nodes[node as int].node)
        },
{
    let primary = min_precedence == 0;
    let chain = simple_chain(e, starts, operators, primary);
    assert forall|j: int| 0 <= j <= chain.count() implies #[trigger] chain.is_operand_at(
        e,
        j,
        primary,
    ) by {
        assert(is_simple(e, starts[j]));
        if takes_spaces(e, starts, j, primary) {
            assert(chain.is_operator_at(e, 0));
        }
        assert forall|s: State|
            s.at == chain.starts[j] && s.nodes.len() + chain.size <= u32::MAX + 1 implies {
            let (s1, node) = #[trigger] (chain.read)(j, s);
            &&& grammar::first_operand(e, s, j == 0 && primary) == Ok::<_, ParserError>(
                (s1, Some(node)),
            )
            &&& s1.at == chain.ends[j]
            &&& adds_to(s, s1)
            &&& node < s1.nodes.len() <= s.nodes.len() + chain.size
            &&& s1.constants.len() <= s.constants.len() + chain.size
        } by {
            lemma_simple_operand(e, s, j == 0 && primary);
            assert(e.spaced(s) == s);
            if literals::is_literal(e, s.at) {
                literals::lemma_literal_operand(e, s, j == 0 && primary);
            } else {
                literals::lemma_plain_id_operand(e, s, j == 0 && primary);
            }
        }
    }
    assert forall|j: int| 0 <= j < chain.count() implies grammar::left_precedence(
        #[trigger] chain.operator(e, j),
    ) >= min_precedence by {
        assert(chain.operators[j] == operators[j]);
    }
    assert(chain.room(chain.count()) == 2 * operators.len()) by (nonlinear_arith)
        requires
            chain.size == 1,
            chain.count() == operators.len(),
    ;
    law_operators_are_grouped(e, chain, s, min_precedence);
    let (s1, found) = grammar::expression(e, s, Seq::empty(), min_precedence)->Ok_0;
    assert forall|j: int, from: State, node: AstIndex|
        0 <= j <= chain.count() && #[trigger] chain.is_read_from(j, from, s1, node) implies
        is_simple_node(e, starts[j], s1, s1.nodes[node as int].node) by {
        assert(is_simple(e, starts[j]));
        lemma_simple_operand(e, from, j == 0 && primary);
        let read = simple_operand(e, from, j == 0 && primary).0;
        assert(s1.nodes[node as int] == read.nodes[node as int]);
        assert(forall|i: int|
            0 <= i < read.constants.len() ==> #[trigger] s1.constants[i] == read.constants[i]);
    }
}

} // verus!
