//! How the lines of a script are read.

use crate::error::ParserError;
use crate::frame;
use crate::grammar;
use crate::literals;
use crate::node::{AstIndex, ConstantIndex, NodeView};
use crate::script::{Script, State};
use crate::token::Token;
use vstd::prelude::*;

verus! {

broadcast use crate::script::group_places;

/// Whether the rest of a script is `count` lines with a literal on each.
pub open spec fn are_lines(e: Script, s: State, count: nat) -> bool
    decreases count,
{
    if count == 0 {
        s.at == e.tokens.len()
    } else {
        &&& literals::is_literal(e, s.at)
        &&& e.tokens[s.at].span.end.line == e.line(s)
        &&& if count == 1 {
            s.at + 1 == e.tokens.len()
        } else {
            &&& e.token_at(s.at + 1) == Some(Token::NewLine)
            &&& are_lines(e, s.moved(s.at + 2), (count - 1) as nat)
        }
    }
}

/// A line with a literal is read as its node.
proof fn lemma_line(e: Script, s: State, count: nat)
    requires
        count > 0,
        are_lines(e, s, count),
        s.nodes.len() <= u32::MAX,
    ensures
        literals::literal(e, s) matches Ok((s1, node)) && grammar::line(e, s) == Ok::<
            _,
            ParserError,
        >((s1.with_top(s1.top().finished()), Some(node))),
{
    reveal(grammar::line);
    reveal(grammar::line_form);
    reveal(grammar::expressions);
    reveal(grammar::expressions_at);
    reveal(grammar::expressions_from);
    reveal(grammar::continued);
    literals::lemma_literal(e, s);
    let (s1, node) = literals::literal(e, s)->Ok_0;
    assert(e.spaced(s) == s);
    assert(e.spaced(s1) == s1);
    literals::lemma_expression_at_literal(e, s, 0);
    if count > 1 {
        reveal_with_fuel(are_lines, 2);
        assert(e.skip_fillers(s1.at) == s1.at + 1) by {
            reveal_with_fuel(Script::skip_fillers, 3);
        }
    }
    assert(grammar::continued(e, s1, seq![node], 0) == Ok::<_, ParserError>((s1, Some(node))));
    assert(grammar::expressions_from(e, s1, e.indent(s), None, seq![node]) == Ok::<_, ParserError>(
        (s1, node),
    ));
    assert(grammar::expressions(e, s, false) == Ok::<_, ParserError>((s1, Some(node))));
}

/// The lines of a script are read one after the other: a script of literals, one on each line, is
/// read as a main block of their nodes, in their order.
pub proof fn law_lines_of_literals(e: Script, count: nat)
    requires
        are_lines(e, grammar::initial_state(), count),
        count <= u32::MAX,
    ensures
        grammar::main_block(e) matches Ok((s, node)) && {
            &&& node == count
            &&& s.nodes.len() == count + 1
            &&& s.nodes[node as int].node == NodeView::MainBlock {
                body: literals::indices(0, node),
                local_count: 0,
            }
        },
{
    assert(literals::indices(0, 0) =~= Seq::<AstIndex>::empty());
    lemma_lines(e, grammar::initial_state(), count);
}

/// The lines of a script, behind those that have been read.
proof fn lemma_lines(e: Script, s: State, count: nat)
    requires
        are_lines(e, s, count),
        s.nodes.len() + count <= u32::MAX,
        s.frames == grammar::initial_state().frames,
    ensures
        grammar::main_block_from(
            e,
            s,
            literals::indices(0, s.nodes.len() as AstIndex),
        ) matches Ok((s1, node)) && {
            &&& node == s.nodes.len() + count
            &&& s1.nodes.len() == node + 1
            &&& s1.nodes[node as int].node == NodeView::MainBlock {
                body: literals::indices(0, node),
                local_count: 0,
            }
        },
    decreases count,
{
    reveal(grammar::main_block_from);
    let frame = frame::new_frame(true, Set::empty());
    assert(s.top() == frame);
    assert(e.filled(s) == s);
    if count == 0 {
        assert(frame.locals() =~= Set::<ConstantIndex>::empty());
    } else {
        lemma_line(e, s, count);
        literals::lemma_literal(e, s);
        let (s1, node) = literals::literal(e, s)->Ok_0;
        let body = literals::indices(0, s.nodes.len() as AstIndex);
        let more = literals::indices(0, s1.nodes.len() as AstIndex);
        assert(body.push(node) =~= more);
        assert(s1.frames == s.frames);
        assert(frame.finished().non_locals =~= frame.non_locals);
        assert(s1.with_top(s1.top().finished()).frames =~= s.frames);
        let s2 = s1.with_top(s1.top().finished());
        if count == 1 {
            lemma_lines(e, s2, 0);
        } else {
            let s3 = s2.moved(s2.at + 1);
            assert(s3.at == s.at + 2);
            lemma_are_lines_at(e, s.moved(s.at + 2), s3, (count - 1) as nat);
            assert(e.filled(s3) == s3);
            assert(e.filled(s2) == s3) by {
                reveal_with_fuel(Script::skip_fillers, 3);
            }
            lemma_lines(e, s3, (count - 1) as nat);
            assert(grammar::main_block_from(e, s2, more) == grammar::main_block_from(e, s3, more));
        }
    }
}

/// Which lines follow depends on the place alone.
proof fn lemma_are_lines_at(e: Script, s: State, t: State, count: nat)
    requires
        s.at == t.at,
        are_lines(e, s, count),
    ensures
        are_lines(e, t, count),
    decreases count,
{
    if count > 1 {
        lemma_are_lines_at(e, s.moved(s.at + 2), t.moved(t.at + 2), (count - 1) as nat);
    }
}

} // verus!
