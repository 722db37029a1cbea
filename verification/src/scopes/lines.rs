//! What functions, imports, lines and blocks do to the scopes. Each lemma says that a form keeps
//! them, as [`scopes::keeps`] has it.

use crate::constant_pool::ConstantView;
use crate::frame;
use crate::grammar;
use crate::node::{AstIndex, ConstantIndex, NodeView};
use crate::scopes;
use crate::scopes::{lookups, loops, values};
use crate::script::{self, Script, State};
use crate::token::Token;
use vstd::multiset::Multiset;
use vstd::prelude::*;

verus! {

broadcast use {crate::script::group_places, crate::scopes::group_keeps};

pub(crate) proof fn lemma_function(e: Script, s: State)
    requires
        s.frames.len() > 0,
    ensures
        scopes::outcome_keeps(e, s, grammar::function(e, s)),
    decreases e.left(s), 2nat,
{
    reveal(grammar::function);
    reveal(grammar::function_body);
    let s1 = e.spaced(s);
    let s2 = e.taken(s1);
    let (s3, args) = grammar::function_args(e, s2, Seq::empty());
    grammar::lemma_function_args(e, s2, Seq::empty());
    lemma_function_args(e, s2, Seq::empty());
    let s4 = e.spaced(s3);
    let s5 = e.taken(s4);
    if e.next(s1) == Some(Token::Function) && e.next(s4) == Some(Token::Function) {
        let s6 = State {
            frames: s5.frames.push(frame::new_frame(false, args.to_set())),
            ..s5
        };
        lemma_function_body(e, s6, e.indent(s1));
        if let Ok((s7, _)) = grammar::function_body(e, s6, e.indent(s1)) {
            let inner = s7.top();
            let outer = State { frames: s7.frames.drop_last(), ..s7 };
            assert(scopes::keeps(e, s5, outer) && inner.is_finite()) by {
                reveal(scopes::keeps);
                reveal(script::extends);
                assert(s6.frames.drop_last() =~= s5.frames);
                assert(args.to_set().finite());
            }
            scopes::lemma_top(e, outer, outer.top().with_nested(inner));
        }
    }
}

pub(crate) proof fn lemma_function_args(e: Script, s: State, args: Seq<ConstantIndex>)
    requires
        s.frames.len() > 0,
    ensures
        scopes::keeps(e, s, grammar::function_args(e, s, args).0),
    decreases e.left(s),
{
    reveal(grammar::function_args);
    if let (s1, Some(arg)) = e.id(e.filled(s), true) {
        lemma_function_args(e, s1, args.push(arg));
    }
}

/// The arguments of a function leave all scopes as they are.
pub(crate) proof fn lemma_function_args_frames(e: Script, s: State, args: Seq<ConstantIndex>)
    ensures
        grammar::function_args(e, s, args).0.frames == s.frames,
    decreases e.left(s),
{
    reveal(grammar::function_args);
    reveal(Script::id);
    if let (s1, Some(arg)) = e.id(e.filled(s), true) {
        lemma_function_args_frames(e, s1, args.push(arg));
    }
}

pub(crate) proof fn lemma_function_body(e: Script, s: State, current_indent: usize)
    requires
        s.frames.len() > 0,
    ensures
        scopes::outcome_keeps(e, s, grammar::function_body(e, s, current_indent)),
    decreases e.left(s), 13nat,
{
    reveal(grammar::function_body);
    reveal(grammar::map_or_block);
    reveal(grammar::line);
    let s1 = e.spaced(s);
    lemma_map_or_block(e, s1, current_indent);
    lemma_line(e, s1);
}

pub(crate) proof fn lemma_import(e: Script, s: State)
    requires
        s.frames.len() > 0,
    ensures
        scopes::outcome_keeps(e, s, grammar::import(e, s)),
{
    reveal(grammar::import);
    let s1 = e.spaced(e.taken(s));
    lemma_import_items(e, s1);
    if let Ok((s2, _)) = grammar::import_items(e, s1) {
        lemma_import_module(e, s2);
    }
}

proof fn lemma_import_items(e: Script, s: State)
    requires
        s.frames.len() > 0,
    ensures
        scopes::outcome_keeps(e, s, grammar::import_items(e, s)),
{
    reveal(grammar::import_items);
    if let (s1, Some(first)) = e.id(e.taken(s), false) {
        lemma_import_items_from(e, s1, seq![first]);
    }
}

proof fn lemma_import_items_from(e: Script, s: State, items: Seq<ConstantIndex>)
    requires
        s.frames.len() > 0,
        scopes::are_within(items, s.constants.len()),
    ensures
        scopes::outcome_keeps(e, s, grammar::import_items_from(e, s, items)),
        grammar::import_items_from(e, s, items) matches Ok((s1, all)) ==> scopes::are_within(
            all,
            s1.constants.len(),
        ),
    decreases e.left(s),
{
    reveal(grammar::import_items_from);
    if let (s2, Some(item)) = e.id(e.spaced(s), false) {
        lemma_import_items_from(e, s2, items.push(item));
    }
}

proof fn lemma_import_module(e: Script, s: State)
    requires
        s.frames.len() > 0,
    ensures
        scopes::outcome_keeps(e, s, grammar::import_module(e, s)),
        grammar::import_module(e, s) matches Ok((s1, module)) ==> module.last()
            < s1.constants.len(),
{
    reveal(grammar::import_module);
    if let (s1, Some(first)) = e.id(s, false) {
        lemma_import_module_from(e, s1, seq![first]);
    }
}

proof fn lemma_import_module_from(e: Script, s: State, module: Seq<ConstantIndex>)
    requires
        s.frames.len() > 0,
        module.last() < s.constants.len(),
    ensures
        scopes::outcome_keeps(e, s, grammar::import_module_from(e, s, module)),
        grammar::import_module_from(e, s, module) matches Ok((s1, all)) ==> all.last()
            < s1.constants.len(),
    decreases e.left(s),
{
    reveal(grammar::import_module_from);
    if let (s1, Some(child)) = e.id(e.taken(s), false) {
        lemma_import_module_from(e, s1, module.push(child));
    }
}

pub(crate) proof fn lemma_export(e: Script, s: State)
    requires
        s.frames.len() > 0,
    ensures
        scopes::outcome_keeps(e, s, grammar::export(e, s)),
    decreases e.left(s), 2nat,
{
    reveal(grammar::export);
    reveal(grammar::exported_value);
    let s1 = e.spaced(s);
    if e.next(s1) == Some(Token::Export) {
        if let (s2, Some(id)) = e.id(e.taken(s1), false) {
            if let Ok((s3, node)) = e.add_node(s2, NodeView::Id(id)) {
                lemma_exported_value(e, e.taken(e.spaced(s3)), node);
            }
        }
    }
}

pub(crate) proof fn lemma_exported_value(e: Script, s: State, id: AstIndex)
    requires
        s.frames.len() > 0,
    ensures
        scopes::outcome_keeps(e, s, grammar::exported_value(e, s, id)),
    decreases e.left(s), 8nat,
{
    reveal(grammar::exported_value);
    lookups::lemma_expressions(e, s, true);
}

pub(crate) proof fn lemma_debug_expression(e: Script, s: State)
    requires
        s.frames.len() > 0,
    ensures
        scopes::outcome_keeps(e, s, grammar::debug_expression(e, s)),
    decreases e.left(s), 2nat,
{
    reveal(grammar::debug_expression);
    if e.next(s) == Some(Token::Debug) {
        let s2 = e.spaced(e.taken(s));
        lookups::lemma_expressions(e, s2, true);
        if let Ok((s3, Some(_))) = grammar::expressions(e, s2, true) {
            let text = e.text_between(s2.at, s3.at);
            scopes::lemma_constant(e, s, s3, ConstantView::Str(text));
        }
    }
}

pub(crate) proof fn lemma_line(e: Script, s: State)
    requires
        s.frames.len() > 0,
    ensures
        scopes::outcome_keeps(e, s, grammar::line(e, s)),
    decreases e.left(s), 9nat,
{
    reveal(grammar::line);
    reveal(grammar::line_form);
    lemma_line_form(e, e.spaced(s));
}

pub(crate) proof fn lemma_line_form(e: Script, s: State)
    requires
        s.frames.len() > 0,
    ensures
        scopes::outcome_keeps(e, s, grammar::line_form(e, s)),
    decreases e.left(s), 8nat,
{
    reveal(grammar::line_form);
    reveal(grammar::export);
    reveal(grammar::debug_expression);
    if grammar::is_loop(e.next(s)) {
        loops::lemma_loop_form(e, s, None, true);
    }
    lemma_export(e, s);
    lemma_debug_expression(e, s);
    lookups::lemma_expressions(e, e.taken(s), true);
    lookups::lemma_expressions(e, s, false);
}

pub(crate) proof fn lemma_map_or_block(e: Script, s: State, current_indent: usize)
    requires
        s.frames.len() > 0,
    ensures
        scopes::outcome_keeps(e, s, grammar::map_or_block(e, s, current_indent)),
    decreases e.left(s), 12nat,
{
    reveal(grammar::map_or_block);
    reveal(grammar::indented_block);
    let s1 = e.filled(s);
    let indent = e.next_indent(s1);
    values::lemma_map_block(e, s1, current_indent, Some(indent));
    if let Ok((s2, None)) = e.onward(
        s1,
        grammar::map_block(e, s1, current_indent, Some(indent)),
    ) {
        lemma_indented_block(e, s2, current_indent, Some(indent));
    }
}

pub(crate) proof fn lemma_indented_block(
    e: Script,
    s: State,
    current_indent: usize,
    block_indent: Option<usize>,
)
    requires
        s.frames.len() > 0,
    ensures
        scopes::outcome_keeps(e, s, grammar::indented_block(e, s, current_indent, block_indent)),
    decreases e.left(s), 11nat,
{
    reveal(grammar::indented_block);
    reveal(grammar::block_from);
    match block_indent {
        Some(indent) => {
            lemma_block_from(e, e.filled(s), indent, Seq::empty());
        },
        None => {
            let s1 = e.spaced(s);
            lemma_block_from(e, e.filled(e.taken(s1)), e.next_indent(s1), Seq::empty());
        },
    }
}

pub(crate) proof fn lemma_block_from(e: Script, s: State, indent: usize, body: Seq<AstIndex>)
    requires
        s.frames.len() > 0,
    ensures
        scopes::outcome_keeps(e, s, grammar::block_from(e, s, indent, body)),
    decreases e.left(s), 10nat,
{
    reveal(grammar::block_from);
    reveal(grammar::line);
    lemma_line(e, s);
    if let Ok((s1, Some(node))) = e.forward(s, grammar::line(e, s)) {
        lemma_block_from(e, e.filled(s1), indent, body.push(node));
    }
}

} // verus!
