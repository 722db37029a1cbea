//! `if` expressions, on one line and with blocks.

use crate::ast::AstNodeView;
use crate::error::ParserError;
use crate::forms::blocks;
use crate::grammar;
use crate::node::{AstIfView, AstIndex, NodeView};
use crate::parts::{self, Part};
use crate::script::{Script, State};
use crate::token::Token;
use vstd::prelude::*;

verus! {

broadcast use crate::script::group_places;

// Blocks

/// An `else if`, with its condition and its block.
pub struct Arm {
    pub at: int,
    pub condition: Part,
    pub block: Part,
}

/// An `else`, with its block.
pub struct ElseArm {
    pub at: int,
    pub block: Part,
}

/// Whether `else if` blocks stand at a place, each directly behind the one before and indented as
/// the `if` is.
pub open spec fn are_arms(e: Script, at: int, arms: Seq<Arm>, indent: usize) -> bool
    decreases arms.len(),
{
    arms.len() > 0 ==> {
        let arm = arms[0];
        &&& arm.at == at
        &&& 0 <= at
        &&& blocks::indent_before(e, at) == indent
        &&& e.token_at(at) == Some(Token::ElseIf)
        &&& arm.condition.is_expression(e, 0)
        &&& arm.condition.starts_behind(e, at + 1)
        &&& arm.block.is_block(e, indent)
        &&& arm.block.from == arm.condition.to
        &&& are_arms(e, arm.block.to, arms.drop_first(), indent)
    }
}

/// The place behind `else if` blocks.
pub open spec fn arms_end(at: int, arms: Seq<Arm>) -> int
    decreases arms.len(),
{
    if arms.len() == 0 {
        at
    } else {
        arms_end(arms[0].block.to, arms.drop_first())
    }
}

/// The most nodes and constants that `else if` blocks add.
pub open spec fn arms_size(arms: Seq<Arm>) -> nat
    decreases arms.len(),
{
    if arms.len() == 0 {
        0
    } else {
        arms[0].condition.size + arms[0].block.size + arms_size(arms.drop_first())
    }
}

/// The state behind `else if` blocks, and the nodes of their conditions and blocks in order, behind
/// those that were read.
pub open spec fn read_arms(arms: Seq<Arm>, s: State, pairs: Seq<(AstIndex, AstIndex)>) -> (
    State,
    Seq<(AstIndex, AstIndex)>,
)
    decreases arms.len(),
{
    if arms.len() == 0 {
        (s, pairs)
    } else {
        let (s1, condition) = (arms[0].condition.read)(s.moved(arms[0].condition.from));
        let (s2, block) = (arms[0].block.read)(s1.moved(arms[0].block.from));
        read_arms(arms.drop_first(), s2, pairs.push((condition, block)))
    }
}

/// Whether an `else` block stands at a place, or nothing there is part of the `if`.
pub open spec fn is_else(e: Script, at: int, last: Option<ElseArm>, indent: usize) -> bool {
    match last {
        Some(arm) => {
            &&& arm.at == at
            &&& blocks::indent_before(e, at) == indent
            &&& e.token_at(at) == Some(Token::Else)
            &&& arm.block.is_block(e, indent)
            &&& arm.block.from == at + 1
        },
        None => {
            ||| blocks::indent_before(e, at) != indent
            ||| {
                &&& e.token_at(at) != Some(Token::Else)
                &&& e.token_at(at) != Some(Token::ElseIf)
                &&& e.skip_spaces(at) == at
            }
        },
    }
}

/// Whether the parts of an `if` with blocks stand from a place on.
pub open spec fn is_if(
    e: Script,
    at: int,
    condition: Part,
    block: Part,
    arms: Seq<Arm>,
    last: Option<ElseArm>,
) -> bool {
    let indent = blocks::indent_before(e, at);
    &&& 0 <= at
    &&& e.token_at(at) == Some(Token::If)
    &&& condition.is_expression(e, 0)
    &&& condition.starts_behind(e, at + 1)
    &&& e.token_at(e.skip_spaces(condition.to)) != Some(Token::Then)
    &&& block.is_block(e, indent)
    &&& block.from == e.skip_spaces(condition.to)
    &&& are_arms(e, block.to, arms, indent)
    &&& is_else(e, arms_end(block.to, arms), last, indent)
}

/// An `if` with blocks.
pub open spec fn if_part(
    e: Script,
    at: int,
    condition: Part,
    block: Part,
    arms: Seq<Arm>,
    last: Option<ElseArm>,
) -> Part {
    Part {
        from: at,
        to: match last {
            Some(arm) => arm.block.to,
            None => arms_end(block.to, arms),
        },
        read: |s: State| read_if(e, s, condition, block, arms, last),
        size: condition.size + block.size + arms_size(arms) + (match last {
            Some(arm) => arm.block.size,
            None => 0,
        }) + 1,
    }
}

/// The state behind an `if` with blocks, and its node: its condition, its block, the conditions and
/// blocks of each `else if` in order, and the block of its `else`, if it has one.
pub open spec fn read_if(
    e: Script,
    s: State,
    condition: Part,
    block: Part,
    arms: Seq<Arm>,
    last: Option<ElseArm>,
) -> (State, AstIndex) {
    let (s1, condition_node) = (condition.read)(s.moved(condition.from));
    let (s2, then_node) = (block.read)(s1.moved(block.from));
    let (s3, else_if_blocks) = read_arms(arms, s2, Seq::empty());
    match last {
        Some(arm) => {
            let (s4, else_node) = (arm.block.read)(s3.moved(arm.block.from));
            e.add_node(
                s4,
                NodeView::If(
                    AstIfView {
                        condition: condition_node,
                        then_node,
                        else_if_blocks,
                        else_node: Some(else_node),
                    },
                ),
            )->Ok_0
        },
        None => e.add_node(
            s3,
            NodeView::If(
                AstIfView {
                    condition: condition_node,
                    then_node,
                    else_if_blocks,
                    else_node: None,
                },
            ),
        )->Ok_0,
    }
}

proof fn lemma_arms(
    e: Script,
    arms: Seq<Arm>,
    s: State,
    indent: usize,
    pairs: Seq<(AstIndex, AstIndex)>,
    last: Option<ElseArm>,
)
    requires
        are_arms(e, s.at, arms, indent),
        is_else(e, arms_end(s.at, arms), last, indent),
        parts::is_ready(s),
        s.at <= e.tokens.len(),
        s.nodes.len() + arms_size(arms) <= u32::MAX + 1,
    ensures
        ({
            let (s1, all) = read_arms(arms, s, pairs);
            &&& grammar::else_if_blocks_from(e, s, indent, pairs) == Ok::<_, ParserError>(
                (s1, all),
            )
            &&& s1.at == arms_end(s.at, arms)
            &&& s1.at <= e.tokens.len()
            &&& parts::goes_on(s, s1)
            &&& s1.nodes.len() <= s.nodes.len() + arms_size(arms)
            &&& s1.constants.len() <= s.constants.len() + arms_size(arms)
            &&& all.len() == pairs.len() + arms.len()
        }),
    decreases arms.len(),
{
    reveal(grammar::else_if_blocks_from);
    parts::lemma_ready(s);
    if arms.len() == 0 {
        parts::lemma_moved(s, s.at);
        assert(s.moved(s.at) == s);
        if last is Some {
            assert(e.spaced(s) == s);
        }
    } else {
        let arm = arms[0];
        let at = s.at;
        assert(e.spaced(s) == s);
        let s1 = e.taken(s);
        let s2 = s.moved(arm.condition.from);
        assert(e.spaced(s1) == s2);
        parts::lemma_moved(s, arm.condition.from);
        parts::lemma_is_expression(e, arm.condition, 0, s2);
        parts::lemma_expression_behind_spaces(e, s1, Seq::empty(), 0);
        let (s3, condition) = (arm.condition.read)(s2);
        parts::lemma_goes_on(s2, s3);
        assert(s3.moved(arm.block.from) == s3);
        parts::lemma_is_block(e, arm.block, indent, s3);
        let (s4, block) = (arm.block.read)(s3);
        parts::lemma_goes_on(s3, s4);
        parts::lemma_goes_on_trans(s, s2, s3);
        parts::lemma_goes_on_trans(s, s3, s4);
        lemma_arms(e, arms.drop_first(), s4, indent, pairs.push((condition, block)), last);
        parts::lemma_goes_on_trans(
            s,
            s4,
            read_arms(arms.drop_first(), s4, pairs.push((condition, block))).0,
        );
    }
}

/// An `if` with blocks has the nodes of its parts: its condition, its block, each `else if` in the
/// order of the script, and its `else` whenever there is one, whatever number of `else if` blocks
/// stands before it.
pub proof fn law_if(
    e: Script,
    at: int,
    condition: Part,
    block: Part,
    arms: Seq<Arm>,
    last: Option<ElseArm>,
    primary: bool,
)
    requires
        is_if(e, at, condition, block, arms, last),
    ensures
        if_part(e, at, condition, block, arms, last).is_term(e, primary),
{
    reveal(Part::is_sound);
    reveal(Part::is_operand);
    reveal(Part::is_term);
    let whole = if_part(e, at, condition, block, arms, last);
    lemma_if_places(e, at, condition, block, arms, last);
    assert forall|s: State| whole.fits(s) implies {
        let read = #[trigger] (whole.read)(s);
        &&& whole.leads_on(s)
        &&& whole.is_read(s, grammar::first_operand(e, s, primary))
        &&& whole.is_read(s, grammar::term(e, s, primary))
    } by {
        lemma_if_at(e, at, condition, block, arms, last, primary, s);
    }
}

proof fn lemma_if_places(
    e: Script,
    at: int,
    condition: Part,
    block: Part,
    arms: Seq<Arm>,
    last: Option<ElseArm>,
)
    requires
        is_if(e, at, condition, block, arms, last),
    ensures
        at < if_part(e, at, condition, block, arms, last).to <= e.tokens.len(),
{
    let indent = blocks::indent_before(e, at);
    parts::lemma_is_expression(e, condition, 0, arbitrary());
    parts::lemma_is_block(e, block, indent, arbitrary());
    lemma_arms_places(e, block.to, arms, indent);
    if let Some(arm) = last {
        parts::lemma_is_block(e, arm.block, indent, arbitrary());
    }
}

proof fn lemma_arms_places(e: Script, at: int, arms: Seq<Arm>, indent: usize)
    requires
        are_arms(e, at, arms, indent),
        at <= e.tokens.len(),
    ensures
        at <= arms_end(at, arms) <= e.tokens.len(),
    decreases arms.len(),
{
    if arms.len() > 0 {
        parts::lemma_is_expression(e, arms[0].condition, 0, arbitrary());
        parts::lemma_is_block(e, arms[0].block, indent, arbitrary());
        lemma_arms_places(e, arms[0].block.to, arms.drop_first(), indent);
    }
}

proof fn lemma_if_at(
    e: Script,
    at: int,
    condition: Part,
    block: Part,
    arms: Seq<Arm>,
    last: Option<ElseArm>,
    primary: bool,
    s: State,
)
    requires
        is_if(e, at, condition, block, arms, last),
        if_part(e, at, condition, block, arms, last).fits(s),
    ensures
        ({
            let whole = if_part(e, at, condition, block, arms, last);
            &&& whole.leads_on(s)
            &&& whole.is_read(s, grammar::first_operand(e, s, primary))
            &&& whole.is_read(s, grammar::term(e, s, primary))
        }),
{
    let whole = if_part(e, at, condition, block, arms, last);
    let indent = blocks::indent_before(e, at);
    parts::lemma_ready(s);
    assert(e.spaced(s) == s);
    parts::lemma_operand_at(e, s, primary);
    let s1 = e.taken(s);
    let s2 = s.moved(condition.from);
    assert(e.spaced(s1) == s2);
    parts::lemma_moved(s, condition.from);
    parts::lemma_is_expression(e, condition, 0, s2);
    parts::lemma_expression_behind_spaces(e, s1, Seq::empty(), 0);
    let (s3, condition_node) = (condition.read)(s2);
    parts::lemma_goes_on(s2, s3);
    let s4 = s3.moved(block.from);
    assert(e.spaced(s3) == s4);
    parts::lemma_moved(s3, block.from);
    parts::lemma_is_block(e, block, indent, s4);
    let (s5, then_node) = (block.read)(s4);
    parts::lemma_goes_on(s4, s5);
    lemma_arms(e, arms, s5, indent, Seq::empty(), last);
    let (s6, else_if_blocks) = read_arms(arms, s5, Seq::empty());
    parts::lemma_goes_on(s5, s6);
    parts::lemma_goes_on_trans(s, s2, s3);
    parts::lemma_goes_on_trans(s, s3, s4);
    parts::lemma_goes_on_trans(s, s4, s5);
    parts::lemma_goes_on_trans(s, s5, s6);
    lemma_else(e, last, s6, indent);
    let (s7, else_node) = read_else(last, s6);
    parts::lemma_goes_on(s6, s7);
    parts::lemma_goes_on_trans(s, s6, s7);
    let made = NodeView::If(
        AstIfView { condition: condition_node, then_node, else_if_blocks, else_node },
    );
    parts::lemma_pushed(s7, AstNodeView { node: made, span: e.span(s7) });
    parts::lemma_goes_on_trans(s, s7, (whole.read)(s).0);
    assert(grammar::if_block(e, s4, condition_node, indent) == e.add_node(s7, made)) by {
        reveal(grammar::if_block);
        reveal(grammar::else_if_blocks_from);
        reveal(grammar::else_block);
    }
    assert(grammar::if_expression(e, s) == grammar::present(e.add_node(s7, made))) by {
        reveal(grammar::if_expression);
        reveal(grammar::if_block);
    }
    lemma_term_at_if(e, s, primary);
}

spec fn read_else(last: Option<ElseArm>, s: State) -> (State, Option<AstIndex>) {
    match last {
        Some(arm) => {
            let (s1, node) = (arm.block.read)(s.moved(arm.block.from));
            (s1, Some(node))
        },
        None => (s, None),
    }
}

proof fn lemma_else(e: Script, last: Option<ElseArm>, s: State, indent: usize)
    requires
        is_else(e, s.at, last, indent),
        parts::is_ready(s),
        s.at <= e.tokens.len(),
        last matches Some(arm) ==> s.nodes.len() + arm.block.size <= u32::MAX + 1,
    ensures
        ({
            let (s1, node) = read_else(last, s);
            &&& grammar::else_block(e, s, indent) == Ok::<_, ParserError>((s1, node))
            &&& parts::goes_on(s, s1)
            &&& last matches Some(arm) ==> {
                &&& s1.at == arm.block.to
                &&& s1.nodes.len() <= s.nodes.len() + arm.block.size
                &&& s1.constants.len() <= s.constants.len() + arm.block.size
            }
        }),
{
    reveal(grammar::else_block);
    parts::lemma_ready(s);
    match last {
        Some(arm) => {
            assert(e.spaced(s) == s);
            let s1 = e.taken(s);
            parts::lemma_moved(s, s.at + 1);
            parts::lemma_is_block(e, arm.block, indent, s1);
            parts::lemma_goes_on_trans(s, s1, (arm.block.read)(s1).0);
        },
        None => {
            parts::lemma_moved(s, s.at);
            assert(s.moved(s.at) == s);
            assert(e.spaced(s) == s.moved(e.skip_spaces(s.at)));
        },
    }
}

proof fn lemma_term_at_if(e: Script, s: State, primary: bool)
    requires
        e.next(s) == Some(Token::If),
        e.spaced(s) == s,
    ensures
        grammar::term(e, s, primary) == grammar::if_expression(e, s),
{
    reveal(grammar::term);
    reveal(grammar::if_expression);
}

// On one line

/// Whether the parts of an `if` on one line stand from a place on.
pub open spec fn is_if_then(
    e: Script,
    at: int,
    condition: Part,
    value: Part,
    other: Option<Part>,
) -> bool {
    let then_at = e.skip_spaces(condition.to);
    let else_at = e.skip_spaces(value.to);
    &&& 0 <= at
    &&& e.token_at(at) == Some(Token::If)
    &&& condition.is_expression(e, 0)
    &&& condition.starts_behind(e, at + 1)
    &&& e.token_at(then_at) == Some(Token::Then)
    &&& value.is_sequence(e)
    &&& value.from == then_at + 1
    &&& match other {
        Some(part) => {
            &&& e.token_at(else_at) == Some(Token::Else)
            &&& part.is_sequence(e)
            &&& part.from == else_at + 1
        },
        None => e.token_at(else_at) != Some(Token::Else),
    }
}

/// An `if` on one line.
pub open spec fn if_then_part(
    e: Script,
    at: int,
    condition: Part,
    value: Part,
    other: Option<Part>,
) -> Part {
    match other {
        Some(part) => parts::node_part(
            at,
            part.to,
            parts::three(condition, value, part),
            |nodes: Seq<u32>|
                NodeView::If(
                    AstIfView {
                        condition: nodes[0],
                        then_node: nodes[1],
                        else_if_blocks: Seq::empty(),
                        else_node: Some(nodes[2]),
                    },
                ),
            parts::span_at(e, part.to),
        ),
        None => parts::node_part(
            at,
            e.skip_spaces(value.to),
            parts::two(condition, value),
            |nodes: Seq<u32>|
                NodeView::If(
                    AstIfView {
                        condition: nodes[0],
                        then_node: nodes[1],
                        else_if_blocks: Seq::empty(),
                        else_node: None,
                    },
                ),
            parts::span_at(e, e.skip_spaces(value.to)),
        ),
    }
}

/// An `if` on one line has its condition, the expressions behind `then`, and those behind `else`
/// whenever there is one.
pub proof fn law_if_then(
    e: Script,
    at: int,
    condition: Part,
    value: Part,
    other: Option<Part>,
    primary: bool,
)
    requires
        is_if_then(e, at, condition, value, other),
    ensures
        if_then_part(e, at, condition, value, other).is_term(e, primary),
{
    reveal(Part::is_operand);
    reveal(Part::is_term);
    let whole = if_then_part(e, at, condition, value, other);
    parts::lemma_is_expression(e, condition, 0, arbitrary());
    parts::lemma_is_sequence(e, value, arbitrary());
    match other {
        Some(part) => {
            parts::lemma_is_sequence(e, part, arbitrary());
            let make = |nodes: Seq<u32>|
                NodeView::If(
                    AstIfView {
                        condition: nodes[0],
                        then_node: nodes[1],
                        else_if_blocks: Seq::empty(),
                        else_node: Some(nodes[2]),
                    },
                );
            parts::lemma_three(e, at, condition, value, part);
            parts::lemma_node_part(
                e,
                at,
                part.to,
                parts::three(condition, value, part),
                make,
                parts::span_at(e, part.to),
            );
        },
        None => {
            let make = |nodes: Seq<u32>|
                NodeView::If(
                    AstIfView {
                        condition: nodes[0],
                        then_node: nodes[1],
                        else_if_blocks: Seq::empty(),
                        else_node: None,
                    },
                );
            let to = e.skip_spaces(value.to);
            parts::lemma_two(e, at, condition, value);
            parts::lemma_node_part(
                e,
                at,
                to,
                parts::two(condition, value),
                make,
                parts::span_at(e, to),
            );
        },
    }
    assert forall|s: State| whole.fits(s) implies {
        let read = #[trigger] (whole.read)(s);
        &&& whole.is_read(s, grammar::first_operand(e, s, primary))
        &&& whole.is_read(s, grammar::term(e, s, primary))
    } by {
        parts::lemma_ready(s);
        assert(e.spaced(s) == s);
        parts::lemma_operand_at(e, s, primary);
        lemma_term_at_if(e, s, primary);
        let s1 = e.taken(s);
        let s2 = s.moved(condition.from);
        assert(e.spaced(s1) == s2);
        parts::lemma_moved(s, condition.from);
        parts::lemma_is_expression(e, condition, 0, s2);
        parts::lemma_expression_behind_spaces(e, s1, Seq::empty(), 0);
        let (s3, condition_node) = (condition.read)(s2);
        parts::lemma_goes_on(s2, s3);
        let s4 = s3.moved(value.from);
        assert(e.taken(e.spaced(s3)) == s4);
        parts::lemma_moved(s3, value.from);
        parts::lemma_is_sequence(e, value, s4);
        let (s5, then_node) = (value.read)(s4);
        parts::lemma_goes_on(s4, s5);
        if let Some(part) = other {
            let s6 = s5.moved(part.from);
            assert(e.taken(e.spaced(s5)) == s6);
            parts::lemma_moved(s5, part.from);
            parts::lemma_is_sequence(e, part, s6);
        }
        reveal(grammar::if_expression);
        reveal(grammar::if_then);
    }
}

} // verus!
