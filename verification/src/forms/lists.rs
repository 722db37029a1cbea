//! Lists and their entries, comprehensions, and the terms of nums.

use crate::ast::AstNodeView;
use crate::error::ParserError;
use crate::forms::calls;
use crate::forms::loops::{self, Head};
use crate::forms::ranges;
use crate::forms::terms;
use crate::grammar;
use crate::node::{AstIndex, NodeView};
use crate::parts::{self, Part};
use crate::script::{Script, State};
use crate::token::Token;
use vstd::prelude::*;

verus! {

broadcast use crate::script::group_places;

// Entries

/// An entry of a list.
pub enum Entry {
    /// A term.
    Term { part: Part },
    /// A range, which may be open at either end.
    Range { start: Option<Part>, symbol: int, end: Option<Part> },
}

impl Entry {
    /// The part of the entry.
    pub open spec fn part(self, e: Script) -> Part {
        match self {
            Entry::Term { part } => part,
            Entry::Range { start, symbol, end } => ranges::range_part(e, start, symbol, end),
        }
    }

    /// Whether the entry stands in a script.
    pub open spec fn stands_in(self, e: Script) -> bool {
        match self {
            Entry::Term { part } => part.is_term(e, false) && !grammar::is_range(
                e.token_at(part.to),
            ),
            Entry::Range { start, symbol, end } => ranges::is_range_end(e, symbol, end) && (
            start matches Some(part) ==> part.is_term(e, false) && part.to == symbol),
        }
    }
}

/// The parts of entries.
pub open spec fn entry_parts(e: Script, entries: Seq<Entry>) -> Seq<Part> {
    entries.map_values(|entry: Entry| entry.part(e))
}

/// Where the next entry starts, or what follows the entries: behind spaces, line breaks and
/// comments.
pub open spec fn next_entry(e: Script, at: int, entries: Seq<Entry>, k: int) -> int {
    e.skip_fillers(
        if k == 0 {
            at
        } else {
            entries[k - 1].part(e).to
        },
    )
}

/// Whether the `k`th entry stands where the one before ends.
pub open spec fn is_entry(e: Script, at: int, entries: Seq<Entry>, k: int) -> bool {
    &&& entries[k].stands_in(e)
    &&& entries[k].part(e).from == next_entry(e, at, entries, k)
}

/// Whether entries stand from a place on, over any number of lines.
pub open spec fn are_entries(e: Script, at: int, entries: Seq<Entry>) -> bool {
    &&& 0 <= at
    &&& forall|k: int| 0 <= k < entries.len() ==> #[trigger] is_entry(e, at, entries, k)
}

proof fn lemma_entry_sound(e: Script, entry: Entry)
    requires
        entry.stands_in(e),
    ensures
        entry.part(e).is_sound(e),
        0 <= entry.part(e).from < entry.part(e).to <= e.tokens.len(),
{
    match entry {
        Entry::Term { part } => {
            parts::lemma_is_term(e, part, false, arbitrary());
        },
        Entry::Range { start, symbol, end } => {
            if let Some(part) = start {
                parts::lemma_is_term(e, part, false, arbitrary());
            }
            ranges::law_range(e, start, symbol, end, 1);
            parts::lemma_is_expression(e, entry.part(e), 1, arbitrary());
        },
    }
}

proof fn lemma_entries_sound(e: Script, at: int, entries: Seq<Entry>)
    requires
        are_entries(e, at, entries),
    ensures
        parts::are_sound(e, at, entry_parts(e, entries)),
        at <= parts::end_of(at, entry_parts(e, entries)),
        entries.len() > 0 ==> at < parts::end_of(at, entry_parts(e, entries)) <= e.tokens.len(),
{
    let all = entry_parts(e, entries);
    assert forall|k: int| 0 <= k < all.len() implies (#[trigger] all[k]).is_sound(e) by {
        assert(is_entry(e, at, entries, k));
        lemma_entry_sound(e, entries[k]);
    }
    assert forall|k: int| 0 <= k < all.len() implies #[trigger] parts::follows(at, all, k) by {
        assert(is_entry(e, at, entries, k));
        if k > 0 {
            assert(is_entry(e, at, entries, k - 1));
        }
    }
    if entries.len() > 0 {
        lemma_entry_order(e, at, entries, entries.len() - 1);
        assert(all.last() == entries[entries.len() - 1].part(e));
        assert(is_entry(e, at, entries, entries.len() - 1));
        lemma_entry_sound(e, entries[entries.len() - 1]);
    }
}

proof fn lemma_entry_order(e: Script, at: int, entries: Seq<Entry>, k: int)
    requires
        are_entries(e, at, entries),
        0 <= k < entries.len(),
    ensures
        at < entries[k].part(e).to,
    decreases k,
{
    assert(is_entry(e, at, entries, k));
    lemma_entry_sound(e, entries[k]);
    if k > 0 {
        lemma_entry_order(e, at, entries, k - 1);
    }
}

/// An entry is read and put behind the others.
proof fn lemma_entry(e: Script, entry: Entry, s: State, nodes: Seq<AstIndex>)
    requires
        entry.stands_in(e),
        entry.part(e).from == e.skip_fillers(s.at),
        entry.part(e).fits(e.filled(s)),
    ensures
        ({
            let (s1, node) = (entry.part(e).read)(e.filled(s));
            grammar::list_from(e, s, nodes) == grammar::list_from(e, s1, nodes.push(node))
        }),
{
    reveal(grammar::list_from);
    let s1 = e.filled(s);
    assert(e.spaced(s1) == s1);
    match entry {
        Entry::Term { part } => {
            parts::lemma_is_term(e, part, false, s1);
            let (s2, node) = (part.read)(s1);
            lemma_term_token(e, s1);
        },
        Entry::Range { start, symbol, end } => {
            match start {
                Some(part) => {
                    parts::lemma_is_term(e, part, false, s1);
                    let (s2, node) = (part.read)(s1);
                    parts::lemma_goes_on(s1, s2);
                    lemma_term_token(e, s1);
                    ranges::law_range_symbol(e, s2, Some(node), symbol, end);
                },
                None => {
                    ranges::law_range_symbol(e, s1, None, symbol, end);
                },
            }
        },
    }
}

/// What starts a term neither ends a list nor starts a loop or a range.
proof fn lemma_term_token(e: Script, s: State)
    requires
        e.spaced(s) == s,
        grammar::term(e, s, false) matches Ok((_, Some(_))),
    ensures
        e.next(s) != Some(Token::ListEnd),
        !grammar::is_range(e.next(s)),
        !grammar::is_loop(e.next(s)),
{
    if e.next(s) == Some(Token::ListEnd) || grammar::is_loop(e.next(s)) {
        parts::lemma_no_term(e, s, false);
    }
    if grammar::is_range(e.next(s)) {
        terms::lemma_no_term_at_range(e, s);
    }
}

proof fn lemma_entries_from(e: Script, at: int, entries: Seq<Entry>, s: State, k: int)
    requires
        are_entries(e, at, entries),
        parts::is_ready(s),
        s.at == at,
        s.nodes.len() + parts::total_size(entry_parts(e, entries)) <= u32::MAX + 1,
        0 <= k <= entries.len(),
    ensures
        ({
            let all = entry_parts(e, entries);
            let (s1, nodes) = parts::read_all(all.take(k), s);
            let (s2, rest) = parts::read_all(all, s);
            grammar::list_from(e, s1, nodes) == grammar::list_from(e, s2, rest)
        }),
    decreases entries.len() - k,
{
    let all = entry_parts(e, entries);
    lemma_entries_sound(e, at, entries);
    parts::lemma_next_part(e, at, all, s, k);
    if k < entries.len() {
        assert(is_entry(e, at, entries, k));
        let (s1, nodes) = parts::read_all(all.take(k), s);
        assert(e.filled(s1) == s1.moved(all[k].from));
        lemma_entry(e, entries[k], s1, nodes);
        lemma_entries_from(e, at, entries, s, k + 1);
    } else {
        assert(all.take(k) =~= all);
    }
}

// Lists

/// A list in brackets.
pub open spec fn list_part(e: Script, at: int, entries: Seq<Entry>) -> Part {
    let to = next_entry(e, at + 1, entries, entries.len() as int) + 1;
    parts::node_part(
        at,
        to,
        entry_parts(e, entries),
        |nodes: Seq<u32>| NodeView::List(nodes),
        parts::span_at(e, to),
    )
}

/// A list has the nodes of its entries, in their order.
pub proof fn law_list(e: Script, at: int, entries: Seq<Entry>, primary: bool)
    requires
        0 <= at,
        e.token_at(at) == Some(Token::ListStart),
        are_entries(e, at + 1, entries),
        e.token_at(next_entry(e, at + 1, entries, entries.len() as int)) == Some(Token::ListEnd),
    ensures
        list_part(e, at, entries).is_term(e, primary),
{
    reveal(Part::is_operand);
    reveal(Part::is_term);
    let whole = list_part(e, at, entries);
    let all = entry_parts(e, entries);
    let to = next_entry(e, at + 1, entries, entries.len() as int) + 1;
    let make = |nodes: Seq<u32>| NodeView::List(nodes);
    lemma_entries_sound(e, at + 1, entries);
    parts::lemma_earlier(e, at, at + 1, all);
    assert(next_entry(e, at + 1, entries, entries.len() as int) == e.skip_fillers(
        parts::end_of(at + 1, all),
    ));
    parts::lemma_node_part(e, at, to, all, make, parts::span_at(e, to));
    assert forall|s: State| whole.fits(s) implies {
        let read = #[trigger] (whole.read)(s);
        &&& whole.is_read(s, grammar::first_operand(e, s, primary))
        &&& whole.is_read(s, grammar::term(e, s, primary))
    } by {
        lemma_list_at(e, at, entries, primary, s);
        let (s1, node) = (whole.read)(s);
        let s2 = parts::read_all(all, s).0;
        assert(s2.moved(to).add_spanned_node(
            make(parts::read_all(all, s).1),
            parts::span_at(e, to),
        ) == Ok::<_, ParserError>((s1, node)));
    }
}

proof fn lemma_list_at(e: Script, at: int, entries: Seq<Entry>, primary: bool, s: State)
    requires
        0 <= at,
        e.token_at(at) == Some(Token::ListStart),
        are_entries(e, at + 1, entries),
        e.token_at(next_entry(e, at + 1, entries, entries.len() as int)) == Some(Token::ListEnd),
        list_part(e, at, entries).fits(s),
    ensures
        ({
            let to = next_entry(e, at + 1, entries, entries.len() as int) + 1;
            let (s1, nodes) = parts::read_all(entry_parts(e, entries), s);
            let outcome = grammar::present(e.add_node(s1.moved(to), NodeView::List(nodes)));
            &&& grammar::term(e, s, primary) == outcome
            &&& grammar::first_operand(e, s, primary) == outcome
        }),
{
    reveal(grammar::list);
    reveal(grammar::list_from);
    let all = entry_parts(e, entries);
    parts::lemma_ready(s);
    assert(e.spaced(s) == s);
    parts::lemma_operand_at(e, s, primary);
    let s1 = e.taken(s);
    parts::lemma_moved(s, at + 1);
    lemma_entries_sound(e, at + 1, entries);
    lemma_entries_from(e, at + 1, entries, s1, 0);
    assert(all.take(0) =~= Seq::empty());
    parts::lemma_read_all(e, at + 1, all, s1);
    parts::lemma_read_from(all, s, s1);
    let (s2, nodes) = parts::read_all(all, s1);
    let close = next_entry(e, at + 1, entries, entries.len() as int);
    assert(s2.at == parts::end_of(at + 1, all));
    assert(e.filled(s2) == s2.moved(close));
    assert(e.filled(s2.moved(close)) == s2.moved(close));
    assert(grammar::list_from(e, s2, nodes) == Ok::<_, ParserError>((s2.moved(close), nodes)));
    if entries.len() == 0 {
        assert(all =~= Seq::empty());
    }
    terms::lemma_term_at_list(e, s, primary);
}

// Comprehensions

/// A list that is made by a loop.
pub open spec fn comprehension_part(e: Script, at: int, entries: Seq<Entry>, head: Head) -> Part {
    let to = e.skip_fillers(head.to(e)) + 1;
    Part {
        from: at,
        to,
        read: |s: State|
            {
                let (s1, body) = parts::read_all(entry_parts(e, entries), s);
                let (s2, nodes) = head.read(e, s1.moved(head.at()));
                let (s3, node) = loops::body_before(e, s2, body, false)->Ok_0;
                let (s4, comprehension) = e.add_node(s3, head.node(nodes, node))->Ok_0;
                e.add_node(s4.moved(to), NodeView::List(seq![comprehension]))->Ok_0
            },
        size: parts::total_size(entry_parts(e, entries)) + head.size() + 3,
    }
}

/// A list with a loop behind its first entries has the loop as its only entry. The entries before
/// the loop are its body: one by itself, or a call of the first with the others as its arguments.
pub proof fn law_comprehension(
    e: Script,
    at: int,
    entries: Seq<Entry>,
    head: Head,
    primary: bool,
)
    requires
        0 <= at,
        e.token_at(at) == Some(Token::ListStart),
        entries.len() > 0,
        are_entries(e, at + 1, entries),
        head.stands_in(e),
        head.at() == next_entry(e, at + 1, entries, entries.len() as int),
        e.token_at(e.skip_fillers(head.to(e))) == Some(Token::ListEnd),
    ensures
        comprehension_part(e, at, entries, head).is_term(e, primary),
{
    reveal(Part::is_sound);
    reveal(Part::is_operand);
    reveal(Part::is_term);
    let whole = comprehension_part(e, at, entries, head);
    lemma_entries_sound(e, at + 1, entries);
    lemma_head_places(e, head);
    assert forall|s: State| whole.fits(s) implies {
        let read = #[trigger] (whole.read)(s);
        &&& whole.leads_on(s)
        &&& whole.is_read(s, grammar::first_operand(e, s, primary))
        &&& whole.is_read(s, grammar::term(e, s, primary))
    } by {
        lemma_comprehension_at(e, at, entries, head, primary, s);
    }
}

proof fn lemma_head_places(e: Script, head: Head)
    requires
        head.stands_in(e),
    ensures
        head.at() < head.to(e) <= e.tokens.len(),
{
    loops::lemma_places(e, head);
}

proof fn lemma_comprehension_at(
    e: Script,
    at: int,
    entries: Seq<Entry>,
    head: Head,
    primary: bool,
    s: State,
)
    requires
        0 <= at,
        e.token_at(at) == Some(Token::ListStart),
        entries.len() > 0,
        are_entries(e, at + 1, entries),
        head.stands_in(e),
        head.at() == next_entry(e, at + 1, entries, entries.len() as int),
        e.token_at(e.skip_fillers(head.to(e))) == Some(Token::ListEnd),
        comprehension_part(e, at, entries, head).fits(s),
    ensures
        ({
            let whole = comprehension_part(e, at, entries, head);
            &&& whole.leads_on(s)
            &&& whole.is_read(s, grammar::first_operand(e, s, primary))
            &&& whole.is_read(s, grammar::term(e, s, primary))
        }),
{
    let whole = comprehension_part(e, at, entries, head);
    let all = entry_parts(e, entries);
    parts::lemma_ready(s);
    assert(e.spaced(s) == s);
    parts::lemma_operand_at(e, s, primary);
    let s1 = e.taken(s);
    parts::lemma_moved(s, at + 1);
    lemma_entries_sound(e, at + 1, entries);
    lemma_entries_from(e, at + 1, entries, s1, 0);
    assert(all.take(0) =~= Seq::empty());
    parts::lemma_read_all(e, at + 1, all, s1);
    parts::lemma_read_from(all, s, s1);
    let (s2, body) = parts::read_all(all, s1);
    parts::lemma_goes_on(s1, s2);
    let s3 = s2.moved(head.at());
    parts::lemma_moved(s2, head.at());
    assert(e.filled(s2) == s3);
    loops::law_loop_behind_body(e, head, s3, body, false);
    let (s4, nodes) = head.read(e, s3);
    let (s5, node) = loops::body_before(e, s4, body, false)->Ok_0;
    let (s6, comprehension) = e.add_node(s5, head.node(nodes, node))->Ok_0;
    parts::lemma_goes_on(s3, s6);
    let s7 = s6.moved(whole.to);
    parts::lemma_moved(s6, whole.to);
    let made = NodeView::List(seq![comprehension]);
    parts::lemma_pushed(s7, AstNodeView { node: made, span: e.span(s7) });
    parts::lemma_goes_on_trans(s, s1, s2);
    parts::lemma_goes_on_trans(s, s2, s3);
    parts::lemma_goes_on_trans(s, s3, s6);
    parts::lemma_goes_on_trans(s, s6, s7);
    parts::lemma_goes_on_trans(s, s7, (whole.read)(s).0);
    assert(grammar::is_loop(e.token_at(head.at())));
    assert(grammar::list_from(e, s2, body) == Ok::<_, ParserError>((s6, seq![comprehension])))
        by {
        reveal(grammar::list_from);
    }
    assert(grammar::list(e, s) == grammar::present(e.add_node(s7, made))) by {
        reveal(grammar::list);
        reveal(grammar::list_from);
    }
    terms::lemma_term_at_list(e, s, primary);
}

// Nums

/// Whether the `k`th term of a num stands behind the one before.
pub open spec fn is_num_term(e: Script, at: int, terms: Seq<Part>, k: int) -> bool {
    &&& terms[k].is_term(e, false)
    &&& terms[k].from == e.skip_spaces(
        if k == 0 {
            at
        } else {
            terms[k - 1].to
        },
    )
    &&& e.token_at(terms[k].from) != Some(Token::NewLineIndented)
}

/// Whether terms stand from a place on, with spaces between them.
pub open spec fn are_num_terms(e: Script, at: int, terms: Seq<Part>) -> bool {
    &&& 0 <= at
    &&& terms.len() > 0
    &&& forall|k: int| 0 <= k < terms.len() ==> #[trigger] is_num_term(e, at, terms, k)
    &&& parts::starts_nothing(e, terms.last().to)
}

proof fn lemma_num_terms_sound(e: Script, at: int, terms: Seq<Part>)
    requires
        are_num_terms(e, at, terms),
    ensures
        parts::are_sound(e, at, terms),
        at < terms.last().to <= e.tokens.len(),
{
    assert forall|k: int| 0 <= k < terms.len() implies (#[trigger] terms[k]).is_sound(e) by {
        assert(is_num_term(e, at, terms, k));
        parts::lemma_is_term(e, terms[k], false, arbitrary());
    }
    assert forall|k: int| 0 <= k < terms.len() implies #[trigger] parts::follows(at, terms, k) by {
        assert(is_num_term(e, at, terms, k));
    }
    lemma_num_term_order(e, at, terms, terms.len() - 1);
    parts::lemma_places(e, terms[terms.len() - 1]);
}

proof fn lemma_num_term_order(e: Script, at: int, terms: Seq<Part>, k: int)
    requires
        are_num_terms(e, at, terms),
        0 <= k < terms.len(),
    ensures
        at < terms[k].to,
    decreases k,
{
    assert(is_num_term(e, at, terms, k));
    parts::lemma_is_term(e, terms[k], false, arbitrary());
    if k > 0 {
        lemma_num_term_order(e, at, terms, k - 1);
    }
}

proof fn lemma_num_terms_from(e: Script, at: int, terms: Seq<Part>, s: State, k: int)
    requires
        are_num_terms(e, at, terms),
        parts::is_ready(s),
        s.at == at,
        s.nodes.len() + parts::total_size(terms) <= u32::MAX + 1,
        0 <= k <= terms.len(),
    ensures
        ({
            let (s1, nodes) = parts::read_all(terms.take(k), s);
            let (s2, all) = parts::read_all(terms, s);
            grammar::terms_from(e, s1, nodes) == Ok::<_, ParserError>(
                (s2.moved(e.skip_spaces(terms.last().to)), all),
            )
        }),
    decreases terms.len() - k,
{
    reveal(grammar::terms_from);
    lemma_num_terms_sound(e, at, terms);
    parts::lemma_next_part(e, at, terms, s, k);
    let (s1, nodes) = parts::read_all(terms.take(k), s);
    if k < terms.len() {
        assert(is_num_term(e, at, terms, k));
        let s2 = s1.moved(terms[k].from);
        assert(e.spaced(s1) == s2);
        parts::lemma_is_term(e, terms[k], false, s2);
        lemma_term_spaces(e, s1);
        let (s3, node) = (terms[k].read)(s2);
        lemma_num_terms_from(e, at, terms, s, k + 1);
    } else {
        assert(terms.take(k) =~= terms);
        parts::lemma_no_term(e, s1, false);
    }
}

proof fn lemma_term_spaces(e: Script, s: State)
    requires
        e.token_at(e.skip_spaces(s.at)) != Some(Token::NewLineIndented),
    ensures
        grammar::term(e, s, false) == grammar::term(e, e.spaced(s), false),
{
    parts::lemma_term_behind_spaces(e, s, false);
}

/// A `num2` or a `num4`, with terms behind it.
pub open spec fn num_part(e: Script, at: int, terms: Seq<Part>, four: bool) -> Part {
    let to = e.skip_spaces(terms.last().to);
    parts::node_part(
        at,
        to,
        terms,
        |nodes: Seq<u32>|
            if four {
                NodeView::Num4(nodes)
            } else {
                NodeView::Num2(nodes)
            },
        parts::span_at(e, to),
    )
}

/// A `num2` has up to two terms, and a `num4` up to four, in their order.
pub proof fn law_num(e: Script, at: int, terms: Seq<Part>, four: bool, primary: bool)
    requires
        0 <= at,
        e.token_at(at) == Some(
            if four {
                Token::Num4
            } else {
                Token::Num2
            },
        ),
        e.token_at(at + 1) != Some(Token::ParenOpen),
        are_num_terms(e, at + 1, terms),
        terms.len() <= (if four {
            4nat
        } else {
            2nat
        }),
    ensures
        num_part(e, at, terms, four).is_term(e, primary),
{
    reveal(Part::is_operand);
    reveal(Part::is_term);
    let whole = num_part(e, at, terms, four);
    let to = e.skip_spaces(terms.last().to);
    let make = |nodes: Seq<u32>|
        if four {
            NodeView::Num4(nodes)
        } else {
            NodeView::Num2(nodes)
        };
    lemma_num_terms_sound(e, at + 1, terms);
    parts::lemma_earlier(e, at, at + 1, terms);
    parts::lemma_node_part(e, at, to, terms, make, parts::span_at(e, to));
    assert forall|s: State| whole.fits(s) implies {
        let read = #[trigger] (whole.read)(s);
        &&& whole.is_read(s, grammar::first_operand(e, s, primary))
        &&& whole.is_read(s, grammar::term(e, s, primary))
    } by {
        lemma_num_at(e, at, terms, four, primary, s);
        let (s1, node) = (whole.read)(s);
        let (s2, nodes) = parts::read_all(terms, s);
        assert(s2.moved(to).add_spanned_node(make(nodes), parts::span_at(e, to))
            == Ok::<_, ParserError>((s1, node)));
    }
}

proof fn lemma_num_at(
    e: Script,
    at: int,
    terms: Seq<Part>,
    four: bool,
    primary: bool,
    s: State,
)
    requires
        0 <= at,
        e.token_at(at) == Some(
            if four {
                Token::Num4
            } else {
                Token::Num2
            },
        ),
        e.token_at(at + 1) != Some(Token::ParenOpen),
        are_num_terms(e, at + 1, terms),
        terms.len() <= (if four {
            4nat
        } else {
            2nat
        }),
        num_part(e, at, terms, four).fits(s),
    ensures
        ({
            let (s1, nodes) = parts::read_all(terms, s);
            let outcome = grammar::present(
                e.add_node(
                    s1.moved(e.skip_spaces(terms.last().to)),
                    if four {
                        NodeView::Num4(nodes)
                    } else {
                        NodeView::Num2(nodes)
                    },
                ),
            );
            &&& grammar::term(e, s, primary) == outcome
            &&& grammar::first_operand(e, s, primary) == outcome
        }),
{
    parts::lemma_ready(s);
    assert(e.spaced(s) == s);
    parts::lemma_operand_at(e, s, primary);
    let s1 = e.taken(s);
    parts::lemma_moved(s, at + 1);
    lemma_num_terms_sound(e, at + 1, terms);
    lemma_num_terms_from(e, at + 1, terms, s1, 0);
    assert(terms.take(0) =~= Seq::empty());
    parts::lemma_read_all(e, at + 1, terms, s1);
    parts::lemma_first_moves(e, at + 1, terms, s, s1);
    terms::lemma_term_at_num(e, s, primary);
}

/// A `num2` or a `num4` with arguments in parentheses.
pub open spec fn num_args_part(e: Script, at: int, args: Seq<Part>, four: bool) -> Part {
    let to = calls::arguments_end(e, at + 1, args);
    parts::node_part(
        at,
        to,
        args,
        |nodes: Seq<u32>|
            if four {
                NodeView::Num4(nodes)
            } else {
                NodeView::Num2(nodes)
            },
        parts::span_at(e, to),
    )
}

/// A `num2` has up to two arguments in parentheses, and a `num4` up to four, in their order.
pub proof fn law_num_of_arguments(e: Script, at: int, args: Seq<Part>, four: bool, primary: bool)
    requires
        0 <= at,
        e.token_at(at) == Some(
            if four {
                Token::Num4
            } else {
                Token::Num2
            },
        ),
        calls::are_arguments(e, at + 1, args),
        1 <= args.len() <= (if four {
            4nat
        } else {
            2nat
        }),
    ensures
        num_args_part(e, at, args, four).is_term(e, primary),
{
    reveal(Part::is_operand);
    reveal(Part::is_term);
    let whole = num_args_part(e, at, args, four);
    let to = calls::arguments_end(e, at + 1, args);
    let make = |nodes: Seq<u32>|
        if four {
            NodeView::Num4(nodes)
        } else {
            NodeView::Num2(nodes)
        };
    calls::lemma_arguments_sound(e, at + 1, args);
    parts::lemma_earlier(e, at, at + 2, args);
    parts::lemma_node_part(e, at, to, args, make, parts::span_at(e, to));
    assert forall|s: State| whole.fits(s) implies {
        let read = #[trigger] (whole.read)(s);
        &&& whole.is_read(s, grammar::first_operand(e, s, primary))
        &&& whole.is_read(s, grammar::term(e, s, primary))
    } by {
        parts::lemma_ready(s);
        assert(e.spaced(s) == s);
        parts::lemma_operand_at(e, s, primary);
        let s1 = e.taken(s);
        parts::lemma_moved(s, at + 1);
        calls::law_arguments(e, s1, args);
        parts::lemma_first_moves(e, at + 2, args, s, s1.moved(at + 2));
        terms::lemma_term_at_num_args(e, s, primary);
    }
}

} // verus!
