//! Maps, in braces and over several lines.

use crate::ast::AstNodeView;
use crate::constant_pool::ConstantView;
use crate::error::ParserError;
use crate::forms::blocks;
use crate::grammar;
use crate::node::{AstIndex, NodeView};
use crate::parts::{self, Part};
use crate::script::{Script, State};
use crate::token::{self, Token};
use vstd::prelude::*;

verus! {

broadcast use crate::script::group_places;

/// An entry of a map: the place of its key, and its value.
pub struct MapEntry {
    pub key: int,
    pub value: Part,
}

/// The state behind entries, and their keys and values in order, behind those that were read.
pub open spec fn read_entries(
    e: Script,
    entries: Seq<MapEntry>,
    s: State,
    pairs: Seq<(u32, AstIndex)>,
) -> (State, Seq<(u32, AstIndex)>)
    decreases entries.len(),
{
    if entries.len() == 0 {
        (s, pairs)
    } else {
        let at = entries[0].key;
        let value = entries[0].value;
        let (s1, key) = s.moved(at + 1).add_constant(ConstantView::Str(e.tokens[at].text));
        let (s2, node) = (value.read)(s1.moved(value.from));
        read_entries(e, entries.drop_first(), s2, pairs.push((key, node)))
    }
}

/// The most nodes and constants that entries add.
pub open spec fn entries_size(entries: Seq<MapEntry>) -> nat
    decreases entries.len(),
{
    if entries.len() == 0 {
        0
    } else {
        entries[0].value.size + 1 + entries_size(entries.drop_first())
    }
}

/// An entry leads to its end.
proof fn lemma_entry(e: Script, entry: MapEntry, s: State)
    requires
        parts::is_ready(s),
        s.at <= entry.key < e.tokens.len(),
        entry.key < entry.value.from,
        entry.value.is_expression(e, 0),
        s.nodes.len() + entry.value.size <= u32::MAX + 1,
    ensures
        ({
            let constant = ConstantView::Str(e.tokens[entry.key].text);
            let (s1, key) = s.moved(entry.key + 1).add_constant(constant);
            let s2 = s1.moved(entry.value.from);
            let (s3, node) = (entry.value.read)(s2);
            &&& grammar::expression(e, s2, Seq::empty(), 0) == Ok::<_, ParserError>(
                (s3, Some(node)),
            )
            &&& s3.at == entry.value.to
            &&& parts::goes_on(s, s3)
            &&& entry.value.from < s3.at <= e.tokens.len()
            &&& s3.nodes.len() <= s.nodes.len() + entry.value.size
            &&& s3.constants.len() <= s.constants.len() + entry.value.size + 1
        }),
{
    let constant = ConstantView::Str(e.tokens[entry.key].text);
    let s0 = s.moved(entry.key + 1);
    parts::lemma_moved(s, entry.key + 1);
    parts::lemma_constant(s0, constant);
    let (s1, key) = s0.add_constant(constant);
    parts::lemma_goes_on(s0, s1);
    let s2 = s1.moved(entry.value.from);
    parts::lemma_moved(s1, entry.value.from);
    parts::lemma_is_expression(e, entry.value, 0, s2);
    let s3 = (entry.value.read)(s2).0;
    parts::lemma_goes_on_trans(s, s0, s1);
    parts::lemma_goes_on_trans(s, s1, s2);
    parts::lemma_goes_on_trans(s, s2, s3);
}

/// An id at a place.
proof fn lemma_id_at(e: Script, s: State)
    requires
        0 <= s.at,
        e.next(s) == Some(Token::Id),
    ensures
        ({
            let (s1, key) = s.moved(s.at + 1).add_constant(
                ConstantView::Str(e.tokens[s.at].text),
            );
            e.id(s, false) == (s1, Some(key))
        }),
{
    reveal(Script::id);
    assert(e.spaced(s) == s);
}

/// Where there is no id.
proof fn lemma_no_id(e: Script, s: State)
    requires
        e.token_at(e.skip_spaces(s.at)) != Some(Token::Id),
    ensures
        e.id(s, false) == (e.spaced(s), None::<u32>),
{
    reveal(Script::id);
}

// In braces

/// Whether entries stand from a place on, with separators between them, up to the end of the map.
pub open spec fn are_entries(e: Script, at: int, entries: Seq<MapEntry>) -> bool
    decreases entries.len(),
{
    if entries.len() == 0 {
        e.token_at(e.skip_fillers(at)) == Some(Token::MapEnd)
    } else {
        let key = entries[0].key;
        let value = entries[0].value;
        let end = e.skip_spaces(value.to);
        &&& 0 <= at
        &&& key == e.skip_fillers(at)
        &&& e.token_at(key) == Some(Token::Id)
        &&& e.token_at(key + 1) == Some(Token::Colon)
        &&& value.is_expression(e, 0)
        &&& value.from == e.skip_fillers(key + 2)
        &&& if entries.len() == 1 && e.token_at(end) != Some(Token::Separator) {
            e.token_at(end) == Some(Token::MapEnd)
        } else {
            &&& e.token_at(end) == Some(Token::Separator)
            &&& are_entries(e, end + 1, entries.drop_first())
        }
    }
}

/// The place of the end of a map.
pub open spec fn entries_end(e: Script, at: int, entries: Seq<MapEntry>) -> int
    decreases entries.len(),
{
    if entries.len() == 0 {
        e.skip_fillers(at)
    } else {
        let end = e.skip_spaces(entries[0].value.to);
        if entries.len() == 1 && e.token_at(end) != Some(Token::Separator) {
            end
        } else {
            entries_end(e, end + 1, entries.drop_first())
        }
    }
}

proof fn lemma_entries(
    e: Script,
    entries: Seq<MapEntry>,
    s: State,
    before: State,
    pairs: Seq<(u32, AstIndex)>,
)
    requires
        are_entries(e, s.at, entries),
        before == s.moved(before.at),
        before.at <= s.at,
        parts::is_ready(before),
        s.nodes.len() + entries_size(entries) <= u32::MAX + 1,
    ensures
        ({
            let (s1, all) = read_entries(e, entries, before, pairs);
            let end = entries_end(e, s.at, entries);
            &&& grammar::inline_map_from(e, s, pairs) == Ok::<_, ParserError>((s1.moved(end), all))
            &&& s1.at <= end
            &&& s.at <= end < e.tokens.len()
            &&& e.token_at(end) == Some(Token::MapEnd)
            &&& parts::goes_on(before, s1)
            &&& s1.nodes.len() <= s.nodes.len() + entries_size(entries)
            &&& s1.constants.len() <= s.constants.len() + entries_size(entries)
        }),
    decreases entries.len(),
{
    reveal(grammar::inline_map_from);
    parts::lemma_ready(before);
    let s0 = e.filled(s);
    assert(e.spaced(s0) == s0);
    if entries.len() == 0 {
        lemma_no_id(e, s0);
        parts::lemma_moved(before, before.at);
        assert(before.moved(before.at) == before);
        assert(before.moved(s0.at) == s0);
    } else {
        let key = entries[0].key;
        let value = entries[0].value;
        lemma_id_at(e, s0);
        assert(before.moved(key + 1) == s0.moved(key + 1));
        parts::lemma_is_expression(e, value, 0, arbitrary());
        lemma_entry(e, entries[0], before);
        let constant = ConstantView::Str(e.tokens[key].text);
        let (s1, id) = before.moved(key + 1).add_constant(constant);
        let s2 = s1.moved(value.from);
        assert(e.filled(e.taken(s1)) == s2);
        let (s3, node) = (value.read)(s2);
        let end = e.skip_spaces(value.to);
        let s5 = s3.moved(end);
        assert(e.spaced(s3) == s5);
        parts::lemma_goes_on(before, s3);
        if entries.len() == 1 && e.token_at(end) != Some(Token::Separator) {
            let more = pairs.push((id, node));
            assert(read_entries(e, entries.drop_first(), s3, more) == (s3, more));
        } else {
            let s6 = s3.moved(end + 1);
            assert(e.taken(s5) == s6);
            lemma_entries(e, entries.drop_first(), s6, s3, pairs.push((id, node)));
            parts::lemma_goes_on_trans(
                before,
                s3,
                read_entries(e, entries.drop_first(), s3, pairs.push((id, node))).0,
            );
        }
    }
}

/// A map in braces.
pub open spec fn map_part(e: Script, at: int, entries: Seq<MapEntry>) -> Part {
    let to = entries_end(e, at + 1, entries) + 1;
    Part {
        from: at,
        to,
        read: |s: State|
            {
                let (s1, pairs) = read_entries(e, entries, s, Seq::empty());
                e.add_node(s1.moved(to), NodeView::MapLiteral(pairs))->Ok_0
            },
        size: entries_size(entries) + 1,
    }
}

/// A map in braces has its keys, each with the node of its value, in their order.
pub proof fn law_map(e: Script, at: int, entries: Seq<MapEntry>, primary: bool)
    requires
        0 <= at,
        e.token_at(at) == Some(Token::MapStart),
        are_entries(e, at + 1, entries),
    ensures
        map_part(e, at, entries).is_term(e, primary),
{
    reveal(Part::is_sound);
    reveal(Part::is_operand);
    reveal(Part::is_term);
    let whole = map_part(e, at, entries);
    lemma_entries_places(e, at + 1, entries);
    assert forall|s: State| whole.fits(s) implies {
        let read = #[trigger] (whole.read)(s);
        &&& whole.leads_on(s)
        &&& whole.is_read(s, grammar::first_operand(e, s, primary))
        &&& whole.is_read(s, grammar::term(e, s, primary))
    } by {
        lemma_map_at(e, at, entries, primary, s);
    }
}

proof fn lemma_entries_places(e: Script, at: int, entries: Seq<MapEntry>)
    requires
        are_entries(e, at, entries),
        0 <= at,
    ensures
        at <= entries_end(e, at, entries) < e.tokens.len(),
    decreases entries.len(),
{
    if entries.len() > 0 {
        parts::lemma_is_expression(e, entries[0].value, 0, arbitrary());
        let end = e.skip_spaces(entries[0].value.to);
        if !(entries.len() == 1 && e.token_at(end) != Some(Token::Separator)) {
            lemma_entries_places(e, end + 1, entries.drop_first());
        }
    }
}

proof fn lemma_map_at(e: Script, at: int, entries: Seq<MapEntry>, primary: bool, s: State)
    requires
        0 <= at,
        e.token_at(at) == Some(Token::MapStart),
        are_entries(e, at + 1, entries),
        map_part(e, at, entries).fits(s),
    ensures
        ({
            let whole = map_part(e, at, entries);
            &&& whole.leads_on(s)
            &&& whole.is_read(s, grammar::first_operand(e, s, primary))
            &&& whole.is_read(s, grammar::term(e, s, primary))
        }),
{
    let whole = map_part(e, at, entries);
    parts::lemma_ready(s);
    assert(e.spaced(s) == s);
    parts::lemma_operand_at(e, s, primary);
    let s0 = e.taken(s);
    assert(s == s0.moved(s.at));
    lemma_entries(e, entries, s0, s, Seq::empty());
    let (s1, pairs) = read_entries(e, entries, s, Seq::empty());
    let end = entries_end(e, at + 1, entries);
    let s2 = s1.moved(end + 1);
    parts::lemma_goes_on(s, s1);
    parts::lemma_moved(s1, end + 1);
    let made = NodeView::MapLiteral(pairs);
    parts::lemma_pushed(s2, AstNodeView { node: made, span: e.span(s2) });
    parts::lemma_goes_on_trans(s, s1, s2);
    parts::lemma_goes_on_trans(s, s2, (whole.read)(s).0);
    let s3 = s1.moved(end);
    assert(e.spaced(s3) == s3);
    assert(e.taken(s3) == s2);
    assert(grammar::inline_map(e, s) == grammar::present(e.add_node(s2, made))) by {
        reveal(grammar::inline_map);
        reveal(grammar::inline_map_from);
    }
    lemma_term_at_map(e, s, primary);
}

proof fn lemma_term_at_map(e: Script, s: State, primary: bool)
    requires
        e.next(s) == Some(Token::MapStart),
        e.spaced(s) == s,
    ensures
        grammar::term(e, s, primary) == grammar::inline_map(e, s),
{
    reveal(grammar::term);
    reveal(grammar::inline_map);
}

// Over several lines

/// The indentation at a place.
pub open spec fn indent_at(e: Script, at: int) -> usize {
    if 0 <= at < e.tokens.len() {
        e.tokens[at].indent
    } else {
        blocks::indent_before(e, at)
    }
}

/// Whether entries stand from a place on, one to a line and indented alike, up to a line that is
/// indented less or the end of the script.
pub open spec fn are_lines(e: Script, at: int, entries: Seq<MapEntry>, indent: usize) -> bool
    decreases entries.len(),
{
    entries.len() > 0 ==> {
        let key = entries[0].key;
        let value = entries[0].value;
        let end = e.skip_fillers(value.to);
        &&& 0 <= at
        &&& key == at
        &&& e.token_at(key) == Some(Token::Id)
        &&& e.token_at(key + 1) == Some(Token::Colon)
        &&& value.is_expression(e, 0)
        &&& value.starts_behind(e, key + 2)
        &&& if entries.len() == 1 {
            indent_at(e, end) < indent || (indent_at(e, end) == indent && end == e.tokens.len())
        } else {
            indent_at(e, end) == indent && are_lines(e, end, entries.drop_first(), indent)
        }
    }
}

/// The place behind entries, and behind the line breaks there.
pub open spec fn lines_end(e: Script, entries: Seq<MapEntry>) -> int {
    e.skip_fillers(entries.last().value.to)
}

proof fn lemma_lines(
    e: Script,
    entries: Seq<MapEntry>,
    s: State,
    before: State,
    indent: usize,
    pairs: Seq<(u32, AstIndex)>,
)
    requires
        entries.len() > 0,
        are_lines(e, s.at, entries, indent),
        before == s.moved(before.at),
        before.at <= s.at,
        parts::is_ready(before),
        s.nodes.len() + entries_size(entries) <= u32::MAX + 1,
    ensures
        ({
            let (s1, all) = read_entries(e, entries, before, pairs);
            let end = lines_end(e, entries);
            &&& grammar::map_block_from(e, s, indent, pairs) == Ok::<_, ParserError>(
                (s1.moved(end), all),
            )
            &&& s1.at <= end
            &&& s.at < end <= e.tokens.len()
            &&& parts::goes_on(before, s1)
            &&& s1.nodes.len() <= s.nodes.len() + entries_size(entries)
            &&& s1.constants.len() <= s.constants.len() + entries_size(entries)
        }),
    decreases entries.len(),
{
    parts::lemma_ready(before);
    let key = entries[0].key;
    let value = entries[0].value;
    lemma_id_at(e, s);
    assert(before.moved(key + 1) == s.moved(key + 1));
    parts::lemma_is_expression(e, value, 0, arbitrary());
    lemma_entry(e, entries[0], before);
    let constant = ConstantView::Str(e.tokens[key].text);
    let (s1, id) = before.moved(key + 1).add_constant(constant);
    let s2 = s1.moved(value.from);
    let (s3, node) = (value.read)(s2);
    parts::lemma_goes_on(before, s3);
    let end = e.skip_fillers(value.to);
    let s4 = s3.moved(end);
    lemma_line(e, s, s1, id, value, s3, node, indent, pairs);
    assert(e.filled(s3) == s4);
    let rest = entries.drop_first();
    if rest.len() > 0 {
        assert(rest.last() == entries.last());
        lemma_lines(e, rest, s4, s3, indent, pairs.push((id, node)));
        parts::lemma_goes_on_trans(
            before,
            s3,
            read_entries(e, rest, s3, pairs.push((id, node))).0,
        );
    } else {
        assert(entries.last() == entries[0]);
        let more = pairs.push((id, node));
        assert(read_entries(e, rest, s3, more) == (s3, more));
        if indent_at(e, end) == indent {
            lemma_lines_at_end(e, s4, indent, pairs.push((id, node)));
        }
    }
}

proof fn lemma_lines_at_end(e: Script, s: State, indent: usize, pairs: Seq<(u32, AstIndex)>)
    requires
        s.at == e.tokens.len(),
    ensures
        grammar::map_block_from(e, s, indent, pairs) == Ok::<_, ParserError>((s, pairs)),
{
    reveal(grammar::map_block_from);
    lemma_no_id(e, s);
    assert(e.spaced(s) == s);
}

/// An entry is read and put behind the others.
proof fn lemma_line(
    e: Script,
    s: State,
    s1: State,
    id: u32,
    value: Part,
    s3: State,
    node: AstIndex,
    indent: usize,
    pairs: Seq<(u32, AstIndex)>,
)
    requires
        0 <= s.at,
        e.id(s, false) == (s1, Some(id)),
        s1.at == s.at + 1,
        e.next(s1) == Some(Token::Colon),
        value.starts_behind(e, s1.at + 1),
        grammar::expression(e, s1.moved(value.from), Seq::empty(), 0) == Ok::<_, ParserError>(
            (s3, Some(node)),
        ),
        value.from < s3.at,
    ensures
        ({
            let s4 = e.filled(s3);
            let more = pairs.push((id, node));
            grammar::map_block_from(e, s, indent, pairs) == if e.next_indent(s4) < indent {
                Ok((s4, more))
            } else if e.next_indent(s4) > indent {
                e.refused(s4, crate::error::SyntaxError::UnexpectedIndentation)
            } else {
                grammar::map_block_from(e, s4, indent, more)
            }
        }),
{
    let s2 = e.taken(s1);
    assert(e.spaced(s1) == s1);
    assert(e.spaced(s2) == s1.moved(value.from));
    parts::lemma_expression_behind_spaces(e, s2, Seq::empty(), 0);
    assert(grammar::map_block_value(e, s2) == Ok::<_, ParserError>((s3, node))) by {
        reveal(grammar::map_block_value);
    }
    reveal(grammar::map_block_from);
    reveal(grammar::map_block_value);
}

/// A map over several lines.
pub open spec fn map_block_part(e: Script, at: int, entries: Seq<MapEntry>) -> Part {
    Part {
        from: at,
        to: lines_end(e, entries),
        read: |s: State|
            {
                let (s1, pairs) = read_entries(e, entries, s, Seq::empty());
                s1.moved(lines_end(e, entries)).add_spanned_node(
                    NodeView::MapLiteral(pairs),
                    token::first_span(),
                )->Ok_0
            },
        size: entries_size(entries) + 1,
    }
}

/// Whether a map over several lines stands behind the line break at a place.
pub open spec fn is_map_block(e: Script, at: int, entries: Seq<MapEntry>) -> bool {
    &&& 0 <= at
    &&& entries.len() > 0
    &&& are_lines(
        e,
        e.skip_fillers(at),
        entries,
        e.tokens[e.skip_fillers(at)].indent,
    )
}

proof fn lemma_map_block_at(e: Script, at: int, entries: Seq<MapEntry>, s: State)
    requires
        is_map_block(e, at, entries),
        map_block_part(e, at, entries).fits(s),
    ensures
        ({
            let whole = map_block_part(e, at, entries);
            let s1 = e.filled(s);
            &&& whole.leads_on(s)
            &&& whole.is_read(
                s,
                grammar::map_block_at(e, s1, e.tokens[e.skip_fillers(at)].indent),
            )
            &&& at < whole.to <= e.tokens.len()
        }),
{
    let whole = map_block_part(e, at, entries);
    let first = e.skip_fillers(at);
    let indent = e.tokens[first].indent;
    parts::lemma_ready(s);
    let s0 = e.filled(s);
    assert(s == s0.moved(s.at));
    lemma_lines(e, entries, s0, s, indent, Seq::empty());
    let (s1, pairs) = read_entries(e, entries, s, Seq::empty());
    let end = lines_end(e, entries);
    let s2 = s1.moved(end);
    parts::lemma_goes_on(s, s1);
    parts::lemma_moved(s1, end);
    let made = NodeView::MapLiteral(pairs);
    parts::lemma_pushed(s2, AstNodeView { node: made, span: token::first_span() });
    parts::lemma_goes_on_trans(s, s1, s2);
    parts::lemma_goes_on_trans(s, s2, (whole.read)(s).0);
    reveal(grammar::map_block_at);
    reveal(grammar::map_block_from);
}

/// Keys and values that stand one to a line, indented further than the line before, are a map of
/// the keys, each with the node of its value, in their order. It can stand where a block can.
pub proof fn law_map_block(e: Script, at: int, entries: Seq<MapEntry>, current_indent: usize)
    requires
        is_map_block(e, at, entries),
    ensures
        map_block_part(e, at, entries).is_block(e, current_indent),
{
    reveal(Part::is_sound);
    reveal(Part::is_block);
    let whole = map_block_part(e, at, entries);
    lemma_lines_places(e, e.skip_fillers(at), entries, e.tokens[e.skip_fillers(at)].indent);
    assert forall|s: State| whole.fits(s) implies {
        let read = #[trigger] (whole.read)(s);
        &&& whole.leads_on(s)
        &&& whole.is_read(s, grammar::map_or_block(e, s, current_indent))
    } by {
        lemma_map_block_at(e, at, entries, s);
        let s1 = e.filled(s);
        assert(e.filled(s1) == s1);
        parts::lemma_goes_on(s, (whole.read)(s).0);
        lemma_lines_places(e, s1.at, entries, e.tokens[s1.at].indent);
        reveal(grammar::map_or_block);
        reveal(grammar::map_block);
        reveal(grammar::map_block_at);
    }
}

proof fn lemma_lines_places(e: Script, at: int, entries: Seq<MapEntry>, indent: usize)
    requires
        entries.len() > 0,
        are_lines(e, at, entries, indent),
    ensures
        0 <= at < lines_end(e, entries) <= e.tokens.len(),
    decreases entries.len(),
{
    parts::lemma_is_expression(e, entries[0].value, 0, arbitrary());
    let rest = entries.drop_first();
    if rest.len() > 0 {
        assert(rest.last() == entries.last());
        lemma_lines_places(e, e.skip_fillers(entries[0].value.to), rest, indent);
    } else {
        assert(entries.last() == entries[0]);
    }
}

/// A map over several lines behind an assignment symbol is its value, where it is indented further.
pub proof fn law_map_value(e: Script, at: int, entries: Seq<MapEntry>)
    requires
        is_map_block(e, at, entries),
        e.token_at(e.skip_spaces(at)) == Some(Token::NewLineIndented),
        blocks::indent_before(e, e.skip_fillers(at)) == e.tokens[e.skip_fillers(at)].indent,
        blocks::indent_before(e, e.skip_fillers(at)) > blocks::indent_before(e, at),
    ensures
        map_block_part(e, at, entries).is_value(e),
{
    reveal(Part::is_sound);
    reveal(Part::is_value);
    let whole = map_block_part(e, at, entries);
    lemma_lines_places(e, e.skip_fillers(at), entries, e.tokens[e.skip_fillers(at)].indent);
    assert forall|s: State| whole.fits(s) implies {
        let read = #[trigger] (whole.read)(s);
        &&& whole.leads_on(s)
        &&& whole.is_read(s, grammar::expressions(e, s, true))
    } by {
        lemma_map_block_at(e, at, entries, s);
        let s1 = e.filled(s);
        assert(e.filled(s1) == s1);
        blocks::lemma_fillers_behind_spaces(e, at);
        assert(e.skip_fillers(e.skip_spaces(at)) == e.skip_fillers(at)) by {
            reveal_with_fuel(Script::skip_fillers, 2);
        }
        assert(e.filled(e.spaced(s)) == s1);
        parts::lemma_goes_on(s, (whole.read)(s).0);
        lemma_lines_places(e, s1.at, entries, e.tokens[s1.at].indent);
        reveal(grammar::expressions);
        reveal(grammar::map_block);
        reveal(grammar::map_block_at);
    }
}

/// A map that starts on the next line, as an operand.
pub open spec fn next_line_map_part(e: Script, at: int, entries: Seq<MapEntry>) -> Part {
    Part {
        from: at,
        to: lines_end(e, entries),
        read: |s: State|
            {
                let (s1, pairs) = read_entries(e, entries, s, Seq::empty());
                s1.moved(lines_end(e, entries)).add_spanned_node(
                    NodeView::MapLiteral(pairs),
                    token::first_span(),
                )->Ok_0
            },
        size: entries_size(entries) + 1,
    }
}

/// Keys and values that stand one to a line behind a line break, indented further than the line
/// before, are a term. So a map can be the value of a key in another.
pub proof fn law_map_on_next_line(e: Script, at: int, entries: Seq<MapEntry>, primary: bool)
    requires
        0 <= at,
        e.token_at(at) == Some(Token::NewLineIndented),
        e.tokens[at].indent > blocks::indent_before(e, at),
        entries.len() > 0,
        are_lines(e, e.skip_fillers(at + 1), entries, e.tokens[at].indent),
    ensures
        next_line_map_part(e, at, entries).is_term(e, primary),
{
    reveal(Part::is_sound);
    reveal(Part::is_operand);
    reveal(Part::is_term);
    let whole = next_line_map_part(e, at, entries);
    let indent = e.tokens[at].indent;
    let first = e.skip_fillers(at + 1);
    lemma_lines_places(e, first, entries, indent);
    assert forall|s: State| whole.fits(s) implies {
        let read = #[trigger] (whole.read)(s);
        &&& whole.leads_on(s)
        &&& whole.is_read(s, grammar::first_operand(e, s, primary))
        &&& whole.is_read(s, grammar::term(e, s, primary))
    } by {
        parts::lemma_ready(s);
        let s0 = e.filled(e.taken(s));
        assert(s == s0.moved(s.at));
        lemma_lines(e, entries, s0, s, indent, Seq::empty());
        let (s1, pairs) = read_entries(e, entries, s, Seq::empty());
        let end = lines_end(e, entries);
        let s2 = s1.moved(end);
        parts::lemma_goes_on(s, s1);
        parts::lemma_moved(s1, end);
        let made = NodeView::MapLiteral(pairs);
        parts::lemma_pushed(s2, AstNodeView { node: made, span: token::first_span() });
        parts::lemma_goes_on_trans(s, s1, s2);
        parts::lemma_goes_on_trans(s, s2, (whole.read)(s).0);
        assert(e.spaced(s) == s);
        parts::lemma_operand_at(e, s, primary);
        assert(grammar::map_block(e, s, e.indent(s), None) == grammar::present(
            s2.add_spanned_node(made, token::first_span()),
        )) by {
            reveal(grammar::map_block);
            reveal(grammar::map_block_at);
            reveal(grammar::map_block_from);
        }
        lemma_term_at_line(e, s, primary);
    }
}

proof fn lemma_term_at_line(e: Script, s: State, primary: bool)
    requires
        e.next(s) == Some(Token::NewLineIndented),
        e.spaced(s) == s,
    ensures
        grammar::term(e, s, primary) == grammar::map_block(e, s, e.indent(s), None),
{
    reveal(grammar::term);
    reveal(grammar::map_block);
}

/// A map on the line behind a binary operator is the right side of the operator.
pub proof fn law_map_behind_operator(
    e: Script,
    s: State,
    lhs: AstIndex,
    entries: Seq<MapEntry>,
)
    requires
        parts::is_ready(s),
        grammar::is_operator(e.next(s)),
        ({
            let at = e.skip_spaces(s.at + 1);
            &&& e.token_at(at) == Some(Token::NewLineIndented)
            &&& e.tokens[at].indent > e.tokens[s.at].indent
            &&& are_lines(e, e.skip_fillers(at + 1), entries, e.tokens[at].indent)
        }),
        entries.len() > 0,
        s.nodes.len() + entries_size(entries) + 2 <= u32::MAX + 1,
    ensures
        ({
            let (s1, pairs) = read_entries(e, entries, s, Seq::empty());
            let (s2, map) = s1.moved(lines_end(e, entries)).add_spanned_node(
                NodeView::MapLiteral(pairs),
                token::first_span(),
            )->Ok_0;
            let op = grammar::binary_op(e.tokens[s.at].token);
            grammar::operation(e, s, lhs) == e.add_node(
                s2,
                NodeView::BinaryOp { op, lhs, rhs: map },
            )
        }),
{
    let at = e.skip_spaces(s.at + 1);
    let indent = e.tokens[at].indent;
    parts::lemma_ready(s);
    let s0 = s.moved(at);
    assert(e.spaced(e.taken(s)) == s0);
    let first = e.filled(e.taken(s0));
    assert(s == first.moved(s.at));
    lemma_lines(e, entries, first, s, indent, Seq::empty());
    let (s1, pairs) = read_entries(e, entries, s, Seq::empty());
    let s2 = s1.moved(lines_end(e, entries));
    let made = NodeView::MapLiteral(pairs);
    assert(grammar::map_block(e, e.taken(s), e.indent(e.taken(s)), None) == grammar::present(
        s2.add_spanned_node(made, token::first_span()),
    )) by {
        reveal(grammar::map_block);
        reveal(grammar::map_block_at);
        reveal(grammar::map_block_from);
    }
    reveal(grammar::operation);
    reveal(grammar::map_block);
}

} // verus!
