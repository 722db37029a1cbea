//! Scripts as a whole, and imports.

use crate::ast::AstNodeView;
use crate::constant_pool::ConstantView;
use crate::error::ParserError;
use crate::grammar;
use crate::node::NodeView;
use crate::parts::{self, Part};
use crate::script::{Script, State};
use crate::token::{self, Token};
use vstd::prelude::*;

verus! {

broadcast use crate::script::group_places;

// Scripts

/// Whether the `k`th line of a script stands behind the one before.
pub open spec fn is_line(e: Script, lines: Seq<Part>, k: int) -> bool {
    &&& lines[k].is_line(e)
    &&& lines[k].from == e.skip_fillers(
        if k == 0 {
            0
        } else {
            lines[k - 1].to
        },
    )
}

/// Whether a script is made of lines, with nothing but line breaks, spaces and comments around
/// them.
pub open spec fn are_lines(e: Script, lines: Seq<Part>) -> bool {
    &&& forall|k: int| 0 <= k < lines.len() ==> #[trigger] is_line(e, lines, k)
    &&& e.skip_fillers(parts::end_of(0, lines)) == e.tokens.len()
}

proof fn lemma_lines_sound(e: Script, lines: Seq<Part>)
    requires
        are_lines(e, lines),
    ensures
        parts::are_sound(e, 0, lines),
{
    assert forall|k: int| 0 <= k < lines.len() implies (#[trigger] lines[k]).is_sound(e) by {
        assert(is_line(e, lines, k));
        parts::lemma_is_line(e, lines[k], arbitrary());
    }
    assert forall|k: int| 0 <= k < lines.len() implies #[trigger] parts::follows(0, lines, k) by {
        assert(is_line(e, lines, k));
    }
}

proof fn lemma_main_block_from(e: Script, lines: Seq<Part>, s: State, k: int)
    requires
        are_lines(e, lines),
        parts::is_ready(s),
        s.at == 0,
        s.nodes.len() + parts::total_size(lines) <= u32::MAX,
        0 <= k <= lines.len(),
    ensures
        ({
            let (s1, nodes) = parts::read_all(lines.take(k), s);
            let (s2, body) = parts::read_all(lines, s);
            let local_count = s2.top().locals().len() as usize;
            grammar::main_block_from(e, s1, nodes) == s2.moved(
                e.tokens.len() as int,
            ).add_spanned_node(NodeView::MainBlock { body, local_count }, token::first_span())
        }),
    decreases lines.len() - k,
{
    reveal(grammar::main_block_from);
    lemma_lines_sound(e, lines);
    parts::lemma_next_part(e, 0, lines, s, k);
    let (s1, nodes) = parts::read_all(lines.take(k), s);
    let s2 = e.filled(s1);
    if k < lines.len() {
        assert(is_line(e, lines, k));
        assert(s2 == s1.moved(lines[k].from));
        parts::lemma_is_line(e, lines[k], s2);
        let (s3, node) = (lines[k].read)(s2);
        lemma_main_block_from(e, lines, s, k + 1);
    } else {
        assert(lines.take(k) =~= lines);
        assert(s2 == s1.moved(e.tokens.len() as int));
    }
}

/// A script is read as a main block with the nodes of its lines, in their order, as its last node.
pub proof fn law_script(e: Script, lines: Seq<Part>)
    requires
        are_lines(e, lines),
        parts::total_size(lines) <= u32::MAX,
    ensures
        grammar::main_block(e) matches Ok((s, main)) && {
            let (s1, body) = parts::read_all(lines, grammar::initial_state());
            &&& body.len() == lines.len()
            &&& s.at == e.tokens.len()
            &&& main == s1.nodes.len()
            &&& s.nodes == s1.nodes.push(
                AstNodeView {
                    node: NodeView::MainBlock {
                        body,
                        local_count: s1.top().locals().len() as usize,
                    },
                    span: token::first_span(),
                },
            )
            &&& s.constants == s1.constants
        },
{
    let s = grammar::initial_state();
    assert(parts::is_ready(s)) by {
        reveal(parts::is_ready);
        assert(s.top() == crate::frame::new_frame(true, Set::empty()));
    }
    lemma_lines_sound(e, lines);
    lemma_main_block_from(e, lines, s, 0);
    assert(lines.take(0) =~= Seq::empty());
    parts::lemma_read_all(e, 0, lines, s);
}

// Imports

/// Whether ids with dots between them stand from a place on, up to something else.
pub open spec fn is_module(e: Script, names: Seq<int>) -> bool
    decreases names.len(),
{
    &&& names.len() > 0
    &&& 0 <= names[0]
    &&& e.token_at(names[0]) == Some(Token::Id)
    &&& if names.len() == 1 {
        e.token_at(names[0] + 1) != Some(Token::Dot)
    } else {
        &&& e.token_at(names[0] + 1) == Some(Token::Dot)
        &&& names[1] == e.skip_spaces(names[0] + 2)
        &&& is_module(e, names.drop_first())
    }
}

/// The state with ids among the constants, and their constants in order, behind those that were
/// read.
pub open spec fn read_names(e: Script, names: Seq<int>, s: State, ids: Seq<u32>) -> (
    State,
    Seq<u32>,
)
    decreases names.len(),
{
    if names.len() == 0 {
        (s, ids)
    } else {
        let (s1, id) = s.moved(names[0] + 1).add_constant(
            ConstantView::Str(e.tokens[names[0]].text),
        );
        read_names(e, names.drop_first(), s1, ids.push(id))
    }
}

/// Reading ids adds constants and nothing else.
proof fn lemma_names(e: Script, names: Seq<int>, s: State, ids: Seq<u32>)
    requires
        parts::is_ready(s),
        names.len() > 0,
        s.at <= names[0] + 1,
        forall|k: int| 0 < k < names.len() ==> #[trigger] is_behind(names, k),
    ensures
        ({
            let (s1, all) = read_names(e, names, s, ids);
            &&& s1.at == names.last() + 1
            &&& parts::goes_on(s, s1)
            &&& s1.frames == s.frames
            &&& s1.nodes == s.nodes
            &&& s1.constants.len() <= s.constants.len() + names.len()
            &&& all.len() == ids.len() + names.len()
        }),
    decreases names.len(),
{
    let s0 = s.moved(names[0] + 1);
    let constant = ConstantView::Str(e.tokens[names[0]].text);
    parts::lemma_moved(s, names[0] + 1);
    parts::lemma_constant(s0, constant);
    let (s1, id) = s0.add_constant(constant);
    parts::lemma_goes_on(s0, s1);
    parts::lemma_goes_on_trans(s, s0, s1);
    let rest = names.drop_first();
    if rest.len() > 0 {
        assert forall|k: int| 0 < k < rest.len() implies #[trigger] is_behind(rest, k) by {
            assert(is_behind(names, k + 1));
        }
        assert(is_behind(names, 1));
        assert(rest.last() == names.last());
        lemma_names(e, rest, s1, ids.push(id));
        parts::lemma_goes_on_trans(s, s1, read_names(e, rest, s1, ids.push(id)).0);
    } else {
        assert(read_names(e, rest, s1, ids.push(id)) == (s1, ids.push(id)));
    }
}

/// Whether an id stands behind the one before it.
pub open spec fn is_behind(names: Seq<int>, k: int) -> bool {
    names[k - 1] < names[k]
}

proof fn lemma_id_at(e: Script, s: State, name: int)
    requires
        0 <= s.at,
        name == e.skip_spaces(s.at),
        e.token_at(name) == Some(Token::Id),
    ensures
        ({
            let (s1, id) = s.moved(name + 1).add_constant(ConstantView::Str(e.tokens[name].text));
            e.id(s, false) == (s1, Some(id))
        }),
{
    reveal(Script::id);
}

/// The ids of a module behind the first are read in their order.
proof fn lemma_module_from(e: Script, names: Seq<int>, s: State, ids: Seq<u32>)
    requires
        is_module(e, names),
        s.at == names[0] + 1,
    ensures
        ({
            let (s1, all) = read_names(e, names.drop_first(), s, ids);
            grammar::import_module_from(e, s, ids) == Ok::<_, ParserError>((s1, all))
        }),
    decreases names.len(),
{
    reveal(grammar::import_module_from);
    let rest = names.drop_first();
    if names.len() > 1 {
        let s1 = e.taken(s);
        assert(is_module(e, rest) && rest[0] == names[1]);
        lemma_id_at(e, s1, names[1]);
        let (s2, id) = s.moved(names[1] + 1).add_constant(
            ConstantView::Str(e.tokens[names[1]].text),
        );
        assert(s1.moved(names[1] + 1) == s.moved(names[1] + 1));
        lemma_module_from(e, rest, s2, ids.push(id));
    }
}

proof fn lemma_module_order(e: Script, names: Seq<int>)
    requires
        is_module(e, names),
    ensures
        forall|k: int| 0 < k < names.len() ==> #[trigger] is_behind(names, k),
        0 <= names[0] <= names.last() < e.tokens.len(),
    decreases names.len(),
{
    let rest = names.drop_first();
    if names.len() > 1 {
        lemma_module_order(e, rest);
        assert(rest.last() == names.last());
        assert forall|k: int| 0 < k < names.len() implies #[trigger] is_behind(names, k) by {
            if k > 1 {
                assert(is_behind(rest, k - 1));
            }
        }
    }
}

/// Whether ids stand from a place on, with spaces between them, up to the end of their list.
pub open spec fn are_items(e: Script, at: int, names: Seq<int>) -> bool
    decreases names.len(),
{
    let next = e.skip_spaces(at);
    if names.len() == 0 {
        e.token_at(next) == Some(Token::ListEnd)
    } else {
        &&& 0 <= at
        &&& names[0] == next
        &&& e.token_at(next) == Some(Token::Id)
        &&& are_items(e, next + 1, names.drop_first())
    }
}

/// Whether the items of an import stand at a place: in brackets, with `from` behind them. Without
/// items there is no bracket.
pub open spec fn is_item_list(e: Script, at: int, items: Seq<int>, from_at: int) -> bool {
    if items.len() == 0 {
        e.token_at(at) != Some(Token::ListStart) && from_at == at
    } else {
        let close = e.skip_spaces(items.last() + 1);
        &&& e.token_at(at) == Some(Token::ListStart)
        &&& are_items(e, at + 1, items)
        &&& from_at == e.skip_spaces(close + 1) + 1
        &&& e.token_at(from_at - 1) == Some(Token::From)
    }
}

proof fn lemma_items_order(e: Script, at: int, names: Seq<int>)
    requires
        are_items(e, at, names),
        0 <= at,
        names.len() > 0,
    ensures
        forall|k: int| 0 < k < names.len() ==> #[trigger] is_behind(names, k),
        at <= names[0] <= names.last() < e.tokens.len(),
        e.token_at(e.skip_spaces(names.last() + 1)) == Some(Token::ListEnd),
    decreases names.len(),
{
    let rest = names.drop_first();
    if names.len() > 1 {
        lemma_items_order(e, names[0] + 1, rest);
        assert(rest.last() == names.last());
        assert forall|k: int| 0 < k < names.len() implies #[trigger] is_behind(names, k) by {
            if k > 1 {
                assert(is_behind(rest, k - 1));
            }
        }
    } else {
        assert(are_items(e, names[0] + 1, rest));
    }
}

proof fn lemma_items_from(e: Script, names: Seq<int>, s: State, ids: Seq<u32>)
    requires
        are_items(e, s.at, names),
        0 <= s.at,
    ensures
        ({
            let (s1, all) = read_names(e, names, s, ids);
            grammar::import_items_from(e, s, ids) == Ok::<_, ParserError>(
                (
                    s1.moved(
                        e.skip_spaces(
                            if names.len() == 0 {
                                s.at
                            } else {
                                names.last() + 1
                            },
                        ),
                    ),
                    all,
                ),
            )
        }),
    decreases names.len(),
{
    reveal(grammar::import_items_from);
    let s0 = e.spaced(s);
    if names.len() > 0 {
        assert(e.skip_spaces(s0.at) == s0.at);
        lemma_id_at(e, s0, names[0]);
        let (s1, id) = s.moved(names[0] + 1).add_constant(
            ConstantView::Str(e.tokens[names[0]].text),
        );
        assert(s0.moved(names[0] + 1) == s.moved(names[0] + 1));
        let rest = names.drop_first();
        lemma_items_from(e, rest, s1, ids.push(id));
        if rest.len() > 0 {
            assert(rest.last() == names.last());
        }
    }
}

/// The state behind the items of an import, and their constants: they are assigned in the scope.
pub open spec fn read_items(e: Script, items: Seq<int>, s: State) -> (State, Seq<u32>) {
    if items.len() == 0 {
        (s, Seq::empty())
    } else {
        let (s1, ids) = read_names(e, items, s, Seq::empty());
        (s1.with_top(s1.top().with_all_assigned(ids)), ids)
    }
}

/// An import.
pub open spec fn import_part(
    e: Script,
    at: int,
    items: Seq<int>,
    module: Seq<int>,
) -> Part {
    let to = module.last() + 1;
    Part {
        from: at,
        to,
        read: |s: State|
            {
                let (s1, item_ids) = read_items(e, items, s);
                let (s2, ids) = read_names(e, module, s1, Seq::empty());
                e.add_node(
                    s2.with_top(s2.top().with_assigned(ids.last())),
                    NodeView::Import { module: ids, items: item_ids },
                )->Ok_0
            },
        size: items.len() + module.len() + 1,
    }
}

/// An import has its items and the ids of its module, each in their order. The items, and the last
/// id of the module, are assigned in the scope.
pub proof fn law_import(
    e: Script,
    at: int,
    items: Seq<int>,
    from_at: int,
    module: Seq<int>,
    primary: bool,
)
    requires
        0 <= at,
        e.token_at(at) == Some(Token::Import),
        is_item_list(e, e.skip_spaces(at + 1), items, from_at),
        is_module(e, module),
        module[0] == e.skip_spaces(from_at),
    ensures
        import_part(e, at, items, module).is_term(e, primary),
{
    reveal(Part::is_sound);
    reveal(Part::is_operand);
    reveal(Part::is_term);
    let whole = import_part(e, at, items, module);
    lemma_module_order(e, module);
    lemma_item_list(e, at, items, from_at);
    assert forall|s: State| whole.fits(s) implies {
        let read = #[trigger] (whole.read)(s);
        &&& whole.leads_on(s)
        &&& whole.is_read(s, grammar::first_operand(e, s, primary))
        &&& whole.is_read(s, grammar::term(e, s, primary))
    } by {
        lemma_import_at(e, at, items, from_at, module, primary, s);
    }
}

proof fn lemma_item_list(e: Script, at: int, items: Seq<int>, from_at: int)
    requires
        0 <= at,
        is_item_list(e, e.skip_spaces(at + 1), items, from_at),
    ensures
        at < from_at,
        items.len() > 0 ==> at < items[0] <= items.last() < from_at,
{
    if items.len() > 0 {
        lemma_items_order(e, e.skip_spaces(at + 1) + 1, items);
    }
}

proof fn lemma_import_at(
    e: Script,
    at: int,
    items: Seq<int>,
    from_at: int,
    module: Seq<int>,
    primary: bool,
    s: State,
)
    requires
        0 <= at,
        e.token_at(at) == Some(Token::Import),
        is_item_list(e, e.skip_spaces(at + 1), items, from_at),
        is_module(e, module),
        module[0] == e.skip_spaces(from_at),
        import_part(e, at, items, module).fits(s),
    ensures
        ({
            let whole = import_part(e, at, items, module);
            &&& whole.leads_on(s)
            &&& whole.is_read(s, grammar::first_operand(e, s, primary))
            &&& whole.is_read(s, grammar::term(e, s, primary))
        }),
{
    let whole = import_part(e, at, items, module);
    lemma_module_order(e, module);
    lemma_item_list(e, at, items, from_at);
    parts::lemma_ready(s);
    assert(e.spaced(s) == s);
    parts::lemma_operand_at(e, s, primary);
    lemma_items_at(e, at, items, from_at, s);
    let (s1, item_ids) = read_items(e, items, s);
    parts::lemma_goes_on(s, s1);
    lemma_names(e, module, s1, Seq::empty());
    let (s2, ids) = read_names(e, module, s1, Seq::empty());
    parts::lemma_goes_on(s1, s2);
    parts::lemma_ready(s2);
    let frame = s2.top().with_assigned(ids.last());
    assert forall|other: u32| #[trigger] frame.access_count(other) <= s2.at by {
        assert(s2.top().access_count(other) <= s2.at);
    }
    parts::lemma_scope(s2, frame);
    let s3 = s2.with_top(frame);
    let made = NodeView::Import { module: ids, items: item_ids };
    parts::lemma_pushed(s3, AstNodeView { node: made, span: e.span(s3) });
    parts::lemma_goes_on_trans(s, s1, s2);
    parts::lemma_goes_on_trans(s, s2, s3);
    parts::lemma_goes_on_trans(s, s3, (whole.read)(s).0);
    // The module
    let s4 = s1.moved(from_at);
    lemma_id_at(e, s4, module[0]);
    let (s5, id) = s1.moved(module[0] + 1).add_constant(
        ConstantView::Str(e.tokens[module[0]].text),
    );
    assert(s4.moved(module[0] + 1) == s1.moved(module[0] + 1));
    lemma_module_from(e, module, s5, Seq::<u32>::empty().push(id));
    assert(Seq::<u32>::empty().push(id) =~= seq![id]);
    assert(grammar::import_module(e, s4) == Ok::<_, ParserError>((s2, ids))) by {
        reveal(grammar::import_module);
    }
    assert(grammar::import(e, s) == grammar::present(e.add_node(s3, made))) by {
        reveal(grammar::import);
    }
    lemma_term_at_import(e, s, primary);
}

proof fn lemma_items_at(e: Script, at: int, items: Seq<int>, from_at: int, s: State)
    requires
        0 <= at,
        e.token_at(at) is Some,
        is_item_list(e, e.skip_spaces(at + 1), items, from_at),
        parts::is_ready(s),
        s.at == at,
    ensures
        ({
            let (s1, ids) = read_items(e, items, s);
            &&& grammar::import_items(e, e.spaced(e.taken(s))) == Ok::<_, ParserError>(
                (s1.moved(from_at), ids),
            )
            &&& parts::goes_on(s, s1)
            &&& s1.at < from_at
            &&& s1.nodes == s.nodes
            &&& s1.constants.len() <= s.constants.len() + items.len()
        }),
{
    reveal(grammar::import_items);
    lemma_item_list(e, at, items, from_at);
    let s0 = e.spaced(e.taken(s));
    if items.len() == 0 {
        parts::lemma_moved(s, s.at);
        assert(s.moved(s.at) == s);
        assert(s.moved(from_at) == s0);
    } else {
        let open = s0.at;
        lemma_items_order(e, open + 1, items);
        let s1 = e.taken(s0);
        lemma_id_at(e, s1, items[0]);
        let (s2, id) = s.moved(items[0] + 1).add_constant(
            ConstantView::Str(e.tokens[items[0]].text),
        );
        assert(s1.moved(items[0] + 1) == s.moved(items[0] + 1));
        let rest = items.drop_first();
        lemma_items_from(e, rest, s2, Seq::<u32>::empty().push(id));
        assert(Seq::<u32>::empty().push(id) =~= seq![id]);
        lemma_names(e, items, s, Seq::empty());
        let (s3, ids) = read_names(e, items, s, Seq::empty());
        if rest.len() > 0 {
            assert(rest.last() == items.last());
        }
        parts::lemma_goes_on(s, s3);
        parts::lemma_ready(s3);
        let frame = s3.top().with_all_assigned(ids);
        assert forall|other: u32| #[trigger] frame.access_count(other) <= s3.at by {
            assert(s3.top().access_count(other) <= s3.at);
        }
        parts::lemma_scope(s3, frame);
        parts::lemma_goes_on_trans(s, s3, s3.with_top(frame));
    }
}

proof fn lemma_term_at_import(e: Script, s: State, primary: bool)
    requires
        e.next(s) == Some(Token::Import),
        e.spaced(s) == s,
    ensures
        grammar::term(e, s, primary) == grammar::import(e, s),
{
    reveal(grammar::term);
}

} // verus!
