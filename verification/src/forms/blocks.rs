//! Blocks of lines.

use crate::ast::AstNodeView;
use crate::error::ParserError;
use crate::forms::lines;
use crate::grammar;
use crate::node::{AstIndex, NodeView};
use crate::parts::{self, Part};
use crate::script::{Script, State};
use crate::token::{self, Token};
use vstd::prelude::*;

verus! {

broadcast use crate::script::group_places;

/// The indentation at the token before a place.
pub open spec fn indent_before(e: Script, at: int) -> usize {
    if 0 < at <= e.tokens.len() {
        e.tokens[at - 1].indent
    } else {
        0
    }
}

/// The line of a block at the given number: it starts behind the line before it, and is indented as
/// the block is.
pub open spec fn is_line(e: Script, at: int, lines: Seq<Part>, indent: usize, k: int) -> bool {
    &&& lines[k].is_line(e)
    &&& lines[k].from == e.skip_fillers(
        if k == 0 {
            at
        } else {
            lines[k - 1].to
        },
    )
    &&& k > 0 ==> indent_before(e, lines[k].from) == indent
}

/// The place behind a block, and behind the line breaks there.
pub open spec fn block_end(e: Script, lines: Seq<Part>) -> int {
    e.skip_fillers(lines.last().to)
}

/// Whether lines stand from a place on that are indented alike. They end where a line is indented
/// less, or where the script ends.
pub open spec fn are_lines(e: Script, at: int, lines: Seq<Part>, indent: usize) -> bool {
    let end = block_end(e, lines);
    &&& 0 <= at
    &&& lines.len() > 0
    &&& forall|k: int| 0 <= k < lines.len() ==> #[trigger] is_line(e, at, lines, indent, k)
    &&& indent_before(e, end) < indent || (indent_before(e, end) == indent && end
        == e.tokens.len())
}

/// The lines of a block, one by itself or several in order.
pub open spec fn block_part(e: Script, at: int, lines: Seq<Part>) -> Part {
    Part {
        from: at,
        to: block_end(e, lines),
        read: |s: State| read_block(e, lines, s),
        size: parts::total_size(lines) + 1,
    }
}

/// What the lines of a block are read as: the node of a single line, or a block of their nodes in
/// order.
pub open spec fn read_block(e: Script, lines: Seq<Part>, s: State) -> (State, AstIndex) {
    let (s1, nodes) = parts::read_all(lines, s);
    let s2 = s1.moved(block_end(e, lines));
    if lines.len() == 1 {
        (s2, nodes[0])
    } else {
        s2.add_spanned_node(NodeView::Block(nodes), token::first_span())->Ok_0
    }
}

proof fn lemma_lines_sound(e: Script, at: int, lines: Seq<Part>, indent: usize)
    requires
        are_lines(e, at, lines, indent),
    ensures
        parts::are_sound(e, at, lines),
        at < lines.last().to <= block_end(e, lines) <= e.tokens.len(),
{
    assert forall|k: int| 0 <= k < lines.len() implies (#[trigger] lines[k]).is_sound(e) by {
        assert(is_line(e, at, lines, indent, k));
        parts::lemma_is_line(e, lines[k], arbitrary());
    }
    assert forall|k: int| 0 <= k < lines.len() implies #[trigger] parts::follows(at, lines, k) by {
        assert(is_line(e, at, lines, indent, k));
    }
    lemma_line_order(e, at, lines, indent, lines.len() - 1);
    parts::lemma_places(e, lines[lines.len() - 1]);
}

proof fn lemma_line_order(e: Script, at: int, lines: Seq<Part>, indent: usize, k: int)
    requires
        are_lines(e, at, lines, indent),
        0 <= k < lines.len(),
    ensures
        at < lines[k].to,
    decreases k,
{
    assert(is_line(e, at, lines, indent, k));
    parts::lemma_is_line(e, lines[k], arbitrary());
    if k > 0 {
        lemma_line_order(e, at, lines, indent, k - 1);
    }
}

/// Where a script ends, a block is complete.
proof fn lemma_block_at_end(e: Script, s: State, indent: usize, nodes: Seq<AstIndex>)
    requires
        s.at == e.tokens.len(),
        nodes.len() > 0,
    ensures
        grammar::block_from(e, s, indent, nodes) == if nodes.len() == 1 {
            Ok((s, nodes[0]))
        } else {
            s.add_spanned_node(NodeView::Block(nodes), token::first_span())
        },
{
    reveal(grammar::block_from);
    lines::lemma_no_line_at_end(e, s);
}

proof fn lemma_block_from(
    e: Script,
    at: int,
    lines: Seq<Part>,
    indent: usize,
    s: State,
    k: int,
)
    requires
        are_lines(e, at, lines, indent),
        parts::is_ready(s),
        s.at == at,
        s.nodes.len() + parts::total_size(lines) + 1 <= u32::MAX + 1,
        0 <= k < lines.len(),
    ensures
        ({
            let (s1, nodes) = parts::read_all(lines.take(k), s);
            grammar::block_from(e, s1.moved(lines[k].from), indent, nodes) == Ok::<_, ParserError>(
                read_block(e, lines, s),
            )
        }),
    decreases lines.len() - k,
{
    reveal(grammar::block_from);
    lemma_lines_sound(e, at, lines, indent);
    parts::lemma_next_part(e, at, lines, s, k);
    parts::lemma_next_part(e, at, lines, s, k + 1);
    let (s1, nodes) = parts::read_all(lines.take(k), s);
    let s2 = s1.moved(lines[k].from);
    assert(is_line(e, at, lines, indent, k));
    parts::lemma_is_line(e, lines[k], s2);
    let (s3, node) = (lines[k].read)(s2);
    let s4 = e.filled(s3);
    if k < lines.len() - 1 {
        assert(is_line(e, at, lines, indent, k + 1));
        assert(s4 == s3.moved(lines[k + 1].from));
        lemma_block_from(e, at, lines, indent, s, k + 1);
    } else {
        assert(lines.take(k + 1) =~= lines);
        assert(s4 == s3.moved(block_end(e, lines)));
        parts::lemma_read_all(e, at, lines, s);
        if indent_before(e, s4.at) == indent {
            lemma_block_at_end(e, s4, indent, nodes.push(node));
        }
    }
}

proof fn lemma_block_leads_on(e: Script, at: int, lines: Seq<Part>, indent: usize, s: State)
    requires
        are_lines(e, at, lines, indent),
        block_part(e, at, lines).fits(s),
    ensures
        block_part(e, at, lines).leads_on(s),
        read_block(e, lines, s).1 < read_block(e, lines, s).0.nodes.len(),
{
    lemma_lines_sound(e, at, lines, indent);
    parts::lemma_read_all(e, at, lines, s);
    let (s1, nodes) = parts::read_all(lines, s);
    parts::lemma_goes_on(s, s1);
    let end = block_end(e, lines);
    parts::lemma_moved(s1, end);
    parts::lemma_goes_on_trans(s, s1, s1.moved(end));
    if lines.len() == 1 {
        parts::lemma_next_part(e, at, lines, s, 0);
        assert(lines.take(0) =~= Seq::empty());
        assert(lines.take(1) =~= lines);
        assert(is_line(e, at, lines, indent, 0));
        parts::lemma_is_line(e, lines[0], s.moved(lines[0].from));
    } else {
        let made = AstNodeView { node: NodeView::Block(nodes), span: token::first_span() };
        parts::lemma_pushed(s1.moved(end), made);
        parts::lemma_goes_on_trans(s, s1.moved(end), read_block(e, lines, s).0);
    }
}

/// Lines behind a line break that are indented further than the lines around them are a block: the
/// node of a single line, or the nodes of several in their order.
pub proof fn law_block(e: Script, at: int, lines: Seq<Part>, current_indent: usize)
    requires
        0 <= at,
        lines.len() > 0,
        are_lines(e, at, lines, e.tokens[lines[0].from].indent),
        e.tokens[lines[0].from].indent > current_indent,
        !(e.token_at(lines[0].from) == Some(Token::Id) && e.token_at(lines[0].from + 1) == Some(
            Token::Colon,
        )),
    ensures
        block_part(e, at, lines).is_block(e, current_indent),
{
    reveal(Part::is_sound);
    reveal(Part::is_block);
    let indent = e.tokens[lines[0].from].indent;
    let whole = block_part(e, at, lines);
    lemma_lines_sound(e, at, lines, indent);
    assert forall|s: State| whole.fits(s) implies {
        let read = #[trigger] (whole.read)(s);
        &&& whole.leads_on(s)
        &&& whole.is_read(s, grammar::map_or_block(e, s, current_indent))
    } by {
        lemma_block_leads_on(e, at, lines, indent, s);
        lemma_block_at(e, at, lines, current_indent, s);
    }
}

proof fn lemma_block_at(e: Script, at: int, lines: Seq<Part>, current_indent: usize, s: State)
    requires
        0 <= at,
        lines.len() > 0,
        are_lines(e, at, lines, e.tokens[lines[0].from].indent),
        e.tokens[lines[0].from].indent > current_indent,
        !(e.token_at(lines[0].from) == Some(Token::Id) && e.token_at(lines[0].from + 1) == Some(
            Token::Colon,
        )),
        block_part(e, at, lines).fits(s),
    ensures
        block_part(e, at, lines).is_read(s, grammar::map_or_block(e, s, current_indent)),
{
    reveal(grammar::map_or_block);
    reveal(grammar::map_block);
    reveal(grammar::map_block_at);
    reveal(grammar::indented_block);
    reveal(grammar::block_from);
    let indent = e.tokens[lines[0].from].indent;
    lemma_lines_sound(e, at, lines, indent);
    lemma_block_leads_on(e, at, lines, indent, s);
    assert(is_line(e, at, lines, indent, 0));
    parts::lemma_is_line(e, lines[0], arbitrary());
    let s1 = e.filled(s);
    assert(s1 == s.moved(lines[0].from));
    assert(e.filled(s1) == s1);
    assert(e.next_indent(s1) == indent);
    lemma_block_from(e, at, lines, indent, s, 0);
    assert(lines.take(0) =~= Seq::empty());
}

/// Whether a part is a block behind a line break, indented further than `current_indent`.
pub open spec fn is_indented(e: Script, part: Part, current_indent: usize) -> bool {
    &&& part.is_sound(e)
    &&& part.from < part.to
    &&& forall|s: State|
        part.fits(s) ==> {
            let read = #[trigger] (part.read)(s);
            part.is_read(s, grammar::indented_block(e, s, current_indent, None))
        }
}

/// Lines behind a line break that are indented further than the line of a loop are its block.
pub proof fn law_indented_block(e: Script, at: int, lines: Seq<Part>, current_indent: usize)
    requires
        0 <= at,
        lines.len() > 0,
        e.token_at(e.skip_spaces(at)) == Some(Token::NewLineIndented),
        e.tokens[e.skip_spaces(at)].indent > current_indent,
        are_lines(e, at, lines, e.tokens[e.skip_spaces(at)].indent),
    ensures
        is_indented(e, block_part(e, at, lines), current_indent),
{
    reveal(Part::is_sound);
    let indent = e.tokens[e.skip_spaces(at)].indent;
    let whole = block_part(e, at, lines);
    lemma_lines_sound(e, at, lines, indent);
    assert forall|s: State| whole.fits(s) implies {
        let read = #[trigger] (whole.read)(s);
        &&& whole.leads_on(s)
        &&& whole.is_read(s, grammar::indented_block(e, s, current_indent, None))
    } by {
        reveal(grammar::indented_block);
        reveal(grammar::block_from);
        lemma_block_leads_on(e, at, lines, indent, s);
        lemma_block_from(e, at, lines, indent, s, 0);
        assert(is_line(e, at, lines, indent, 0));
        assert(lines.take(0) =~= Seq::empty());
        lemma_fillers_behind_spaces(e, at);
        assert(e.filled(e.taken(e.spaced(s))) == s.moved(lines[0].from));
    }
}

/// Spaces and the line break behind them are fillers.
pub(crate) proof fn lemma_fillers_behind_spaces(e: Script, at: int)
    requires
        0 <= at,
        e.token_at(e.skip_spaces(at)) == Some(Token::NewLineIndented) || e.token_at(
            e.skip_spaces(at),
        ) == Some(Token::NewLine),
    ensures
        e.skip_fillers(e.skip_spaces(at) + 1) == e.skip_fillers(at),
    decreases e.tokens.len() - at,
{
    reveal_with_fuel(Script::skip_fillers, 2);
    if at < e.tokens.len() && crate::script::is_space(e.tokens[at].token) {
        lemma_fillers_behind_spaces(e, at + 1);
    }
}

} // verus!
