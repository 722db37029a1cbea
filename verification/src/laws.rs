//! What holds of the parts of the parser together.

use crate::ast::{Ast, AstNodeView};
use crate::constant_pool::{self, ConstantPool, ConstantView};
use crate::error::ParserError;
use crate::frame::FrameView;
use crate::grammar;
use crate::lexer;
use crate::node::{AssignOp, AssignTarget, AstIndex, ConstantIndex, NodeView, Scope};
use crate::number;
use crate::parser;
use crate::script::{self, Script, State};
use crate::text;
use crate::token::{self, LexemeView, Token};
use vstd::multiset::Multiset;
use vstd::prelude::*;
use vstd::utf8::encode_utf8;

verus! {

broadcast use crate::script::group_places;

// Tokens

/// What follows the last line break that was skipped is the end of the source.
proof fn lemma_place<F: Fn(&str) -> Option<u64>>(
    source: Seq<char>,
    read_number: F,
    e: Script,
    count: nat,
)
    requires
        lexer::are_lexemes(source, read_number, e.tokens),
        count <= e.tokens.len(),
        forall|i: int| 0 <= i < count ==> (#[trigger] e.tokens[i]).token != Token::Error,
    ensures
        ({
            let place = lexer::place_at(source, count);
            let bytes = encode_utf8(source);
            &&& place.position() <= bytes.len()
            &&& encode_utf8(place.source) == bytes.subrange(place.start as int, bytes.len() as int)
        }),
    decreases count,
{
    let bytes = encode_utf8(source);
    if count == 0 {
        assert(bytes.subrange(0, bytes.len() as int) =~= bytes);
    } else {
        let before = (count - 1) as nat;
        lemma_place(source, read_number, e, before);
        let place = lexer::place_at(source, before);
        assert(lexer::is_lexeme(place, read_number, e.tokens[before as int]));
        if place.skips_line() {
            text::lemma_skipped_line(place.source, place.end() as int);
            assert(encode_utf8(place.next().source) =~= bytes.subrange(
                place.next().start as int,
                bytes.len() as int,
            ));
        }
    }
}

/// The text of tokens that follow each other is the part of the source that they cover. So the
/// text that a `debug` expression is shown with is its source.
pub proof fn law_text_of_tokens<F: Fn(&str) -> Option<u64>>(
    source: Seq<char>,
    read_number: F,
    e: Script,
    from: int,
    to: int,
)
    requires
        lexer::are_lexemes(source, read_number, e.tokens),
        0 <= from <= to <= e.tokens.len(),
        forall|i: int| 0 <= i < to ==> (#[trigger] e.tokens[i]).token != Token::Error,
    ensures
        lexer::place_at(source, from as nat).position() <= lexer::place_at(
            source,
            to as nat,
        ).position() <= encode_utf8(source).len(),
        encode_utf8(e.text_between(from, to)) == encode_utf8(source).subrange(
            lexer::place_at(source, from as nat).position() as int,
            lexer::place_at(source, to as nat).position() as int,
        ),
    decreases to - from,
{
    let bytes = encode_utf8(source);
    let start = lexer::place_at(source, from as nat).position() as int;
    let end = lexer::place_at(source, to as nat).position() as int;
    lemma_place(source, read_number, e, to as nat);
    if from == to {
        assert(encode_utf8(e.text_between(from, to)) =~= Seq::<u8>::empty());
        assert(bytes.subrange(start, end) =~= Seq::<u8>::empty());
    } else {
        law_text_of_tokens(source, read_number, e, from, to - 1);
        let place = lexer::place_at(source, (to - 1) as nat);
        let middle = place.position() as int;
        assert(lexer::is_lexeme(place, read_number, e.tokens[to - 1]));
        lemma_place(source, read_number, e, (to - 1) as nat);
        text::lemma_encode_joined(e.text_between(from, to - 1), e.tokens[to - 1].text);
        if place.skips_line() {
            text::lemma_skipped_line(place.source, place.end() as int);
        }
        assert(encode_utf8(e.tokens[to - 1].text) =~= bytes.subrange(middle, end));
        assert(bytes.subrange(start, end) =~= bytes.subrange(start, middle) + bytes.subrange(
            middle,
            end,
        ));
    }
}

/// The tokens of a source without errors cover it from its start to its end.
pub proof fn law_tokens_cover_source<F: Fn(&str) -> Option<u64>>(
    source: Seq<char>,
    read_number: F,
    e: Script,
)
    requires
        lexer::are_lexemes(source, read_number, e.tokens),
        forall|i: int| 0 <= i < e.tokens.len() ==> (#[trigger] e.tokens[i]).token != Token::Error,
    ensures
        e.text_between(0, e.tokens.len() as int) == source,
{
    let whole = e.text_between(0, e.tokens.len() as int);
    law_text_of_tokens(source, read_number, e, 0, e.tokens.len() as int);
    assert(encode_utf8(source).subrange(0, encode_utf8(source).len() as int) =~= encode_utf8(
        source,
    ));
    text::lemma_encode_injective(whole, source);
}

/// Whether `read_number` gives one value for one text.
pub open spec fn reads_numbers_alike<F: Fn(&str) -> Option<u64>>(read_number: F) -> bool {
    forall|first: &str, second: &str, a: Option<u64>, b: Option<u64>|
        first@ == second@ && #[trigger] call_ensures(read_number, (first,), a)
            && #[trigger] call_ensures(read_number, (second,), b) ==> a == b
}

/// A source has one sequence of tokens, where a number literal has one value.
pub proof fn law_one_sequence_of_tokens<F: Fn(&str) -> Option<u64>>(
    source: Seq<char>,
    read_number: F,
    first: Seq<LexemeView>,
    second: Seq<LexemeView>,
)
    requires
        reads_numbers_alike(read_number),
        lexer::are_lexemes(source, read_number, first),
        lexer::are_lexemes(source, read_number, second),
    ensures
        first == second,
{
    assert forall|i: int| 0 <= i < first.len() && i < second.len() implies #[trigger] first[i]
        == second[i] by {
        let place = lexer::place_at(source, i as nat);
        assert(lexer::is_lexeme(place, read_number, first[i]));
        assert(lexer::is_lexeme(place, read_number, second[i]));
        if place.kind() != Some(Token::Error) && !place.skips_line() {
            text::lemma_encode_injective(first[i].text, second[i].text);
        }
    }
    if first.len() < second.len() {
        let n = first.len() as int;
        assert(lexer::is_lexeme(lexer::place_at(source, n as nat), read_number, second[n]));
        if n > 0 {
            assert(second[n - 1].token != Token::Error);
            assert(first[n - 1] == second[n - 1]);
        }
        assert(false);
    }
    if second.len() < first.len() {
        let n = second.len() as int;
        assert(lexer::is_lexeme(lexer::place_at(source, n as nat), read_number, first[n]));
        if n > 0 {
            assert(first[n - 1].token != Token::Error);
            assert(first[n - 1] == second[n - 1]);
        }
        assert(false);
    }
    assert(first =~= second);
}

/// A source is read in one way: two readings of it with the same options give the same nodes, the
/// same entry point and the same constants, or the same error.
pub proof fn law_one_reading<F: Fn(&str) -> Option<u64>>(
    source: Seq<char>,
    read_number: F,
    export_all_top_level: bool,
    first_tokens: Seq<LexemeView>,
    first: Result<(Ast, ConstantPool), ParserError>,
    second_tokens: Seq<LexemeView>,
    second: Result<(Ast, ConstantPool), ParserError>,
)
    requires
        reads_numbers_alike(read_number),
        lexer::are_lexemes(source, read_number, first_tokens),
        parser::is_reading(Script { tokens: first_tokens, export_all_top_level }, first),
        lexer::are_lexemes(source, read_number, second_tokens),
        parser::is_reading(Script { tokens: second_tokens, export_all_top_level }, second),
    ensures
        match (first, second) {
            (Ok((first_ast, first_constants)), Ok((second_ast, second_constants))) => {
                &&& first_ast@ == second_ast@
                &&& first_ast.spec_entry_point() == second_ast.spec_entry_point()
                &&& first_constants@ == second_constants@
            },
            (Err(first_error), Err(second_error)) => first_error == second_error,
            _ => false,
        },
{
    law_one_sequence_of_tokens(source, read_number, first_tokens, second_tokens);
}

/// Between lines, spaces, line breaks and comments mean nothing; on a line, spaces and line breaks
/// that are skipped do. These are skipped up to the first token that is another, and no others.
pub proof fn law_skipped_tokens(e: Script, at: int, i: int)
    requires
        0 <= at <= e.tokens.len(),
    ensures
        ({
            let end = e.skip_fillers(at);
            &&& at <= end <= e.tokens.len()
            &&& at <= i < end ==> {
                let token = e.tokens[i].token;
                ||| token == Token::Whitespace
                ||| token == Token::NewLine
                ||| token == Token::NewLineIndented
                ||| token == Token::NewLineSkipped
                ||| token == Token::CommentSingle
                ||| token == Token::CommentMulti
            }
            &&& end < e.tokens.len() ==> {
                let token = e.tokens[end].token;
                &&& token != Token::Whitespace
                &&& token != Token::NewLine
                &&& token != Token::NewLineIndented
                &&& token != Token::NewLineSkipped
                &&& token != Token::CommentSingle
                &&& token != Token::CommentMulti
            }
        }),
        ({
            let end = e.skip_spaces(at);
            &&& at <= end <= e.tokens.len()
            &&& at <= i < end ==> {
                let token = e.tokens[i].token;
                token == Token::Whitespace || token == Token::NewLineSkipped
            }
            &&& end < e.tokens.len() ==> {
                let token = e.tokens[end].token;
                token != Token::Whitespace && token != Token::NewLineSkipped
            }
        }),
    decreases e.tokens.len() - at,
{
    if at < e.tokens.len() {
        law_skipped_tokens(e, at + 1, i);
    }
}

// Constants

/// A constant that is added again is found where it was added first, and nothing is added. The
/// constants that were there before keep their places.
pub proof fn law_constant_added_once(constants: Seq<ConstantView>, constant: ConstantView)
    requires
        constants.no_duplicates(),
    ensures
        ({
            let more = constant_pool::constants_with(constants, constant);
            let index = constant_pool::constant_index(constants, constant);
            &&& more.no_duplicates()
            &&& 0 <= index < more.len()
            &&& more[index] == constant
            &&& constant_pool::constants_with(more, constant) == more
            &&& constant_pool::constant_index(more, constant) == index
            &&& forall|other: ConstantView|
                constants.contains(other) ==> #[trigger] constant_pool::constant_index(more, other)
                    == constant_pool::constant_index(constants, other)
        }),
{
    let more = constant_pool::constants_with(constants, constant);
    let index = constant_pool::constant_index(constants, constant);
    if !constants.contains(constant) {
        constant_pool::lemma_push_distinct(constants, constant);
    }
    assert(more[index] == constant);
    constant_pool::lemma_only_index(more, constant, index);
    assert forall|other: ConstantView|
        constants.contains(other) implies #[trigger] constant_pool::constant_index(more, other)
        == constant_pool::constant_index(constants, other) by {
        let i = constants.index_of(other);
        assert(more[i] == other);
        constant_pool::lemma_only_index(more, other, i);
    }
}

/// The numbers 0 and 1 take no place among the constants; any other number takes at most one.
pub proof fn law_numbers_as_constants(e: Script, s: State)
    requires
        0 <= s.at < e.tokens.len(),
        e.tokens[s.at].number is Some,
        s.nodes.len() <= u32::MAX,
    ensures
        grammar::number(e, s) matches Ok((s1, node)) && {
            let bits = e.tokens[s.at].number->0;
            if number::is_near_zero(bits) {
                s1.constants == s.constants && s1.nodes[node as int].node == NodeView::Number0
            } else if number::is_near_one(bits) {
                s1.constants == s.constants && s1.nodes[node as int].node == NodeView::Number1
            } else {
                &&& s1.constants == constant_pool::constants_with(
                    s.constants,
                    ConstantView::Number(bits),
                )
                &&& s1.nodes[node as int].node is Number
            }
        },
{
    reveal(grammar::number);
}

// Scopes

/// An id of an expression is read, or turns out to be assigned.
pub enum Access {
    Read,
    Assigned,
}

/// How often an id has been read or assigned.
pub open spec fn times(accesses: Seq<Access>, access: Access) -> nat
    decreases accesses.len(),
{
    if accesses.len() == 0 {
        0
    } else {
        times(accesses.drop_last(), access) + (if accesses.last() == access {
            1nat
        } else {
            0nat
        })
    }
}

/// A frame in which an id has been read and assigned.
pub open spec fn after_accesses(
    frame: FrameView,
    id: ConstantIndex,
    accesses: Seq<Access>,
) -> FrameView
    decreases accesses.len(),
{
    if accesses.len() == 0 {
        frame
    } else {
        let before = after_accesses(frame, id, accesses.drop_last());
        match accesses.last() {
            Access::Read => before.with_access(id),
            Access::Assigned => before.without_access(id).with_target(id),
        }
    }
}

/// The number of reads of an id in an expression is the number of times that it occurs there, less
/// the number of times that it is assigned, where it is never assigned more often than it has
/// occurred.
pub proof fn law_access_count(frame: FrameView, id: ConstantIndex, accesses: Seq<Access>)
    requires
        frame.access_count(id) == 0,
        accesses.len() <= usize::MAX,
        forall|k: int|
            0 <= k <= accesses.len() ==> times(#[trigger] accesses.take(k), Access::Assigned)
                <= times(accesses.take(k), Access::Read),
    ensures
        after_accesses(frame, id, accesses).access_count(id) == times(accesses, Access::Read)
            - times(accesses, Access::Assigned),
        times(accesses, Access::Read) + times(accesses, Access::Assigned) == accesses.len(),
    decreases accesses.len(),
{
    if accesses.len() > 0 {
        let before = accesses.drop_last();
        assert forall|k: int| 0 <= k <= before.len() implies times(
            #[trigger] before.take(k),
            Access::Assigned,
        ) <= times(before.take(k), Access::Read) by {
            assert(before.take(k) =~= accesses.take(k));
        }
        law_access_count(frame, id, before);
        assert(accesses.take(accesses.len() as int) =~= accesses);
    }
}

/// When an expression and its assignments are complete, an id is a non-local if it was one before,
/// or if the expression reads it more often than it assigns it and it was not assigned before the
/// expression. From then on the id is assigned if it was before, or if the expression assigns it.
pub proof fn law_non_locals(frame: FrameView, id: ConstantIndex, accesses: Seq<Access>)
    requires
        frame.access_count(id) == 0,
        !frame.new_targets.contains(id),
        accesses.len() <= usize::MAX,
        forall|k: int|
            0 <= k <= accesses.len() ==> times(#[trigger] accesses.take(k), Access::Assigned)
                <= times(accesses.take(k), Access::Read),
    ensures
        ({
            let next = after_accesses(frame, id, accesses).with_complete(id).finished();
            let read = times(accesses, Access::Read);
            let assigned = times(accesses, Access::Assigned);
            &&& next.non_locals.contains(id) <==> frame.non_locals.contains(id) || (read > assigned
                && !frame.assigned.contains(id))
            &&& next.was_assigned(id) <==> frame.assigned.contains(id) || assigned > 0
            &&& next.access_count(id) == 0
        }),
{
    law_access_count(frame, id, accesses);
    lemma_targets(frame, id, accesses);
}

/// Reading an id changes nothing but its count; assigning it makes it a target as well.
proof fn lemma_targets(frame: FrameView, id: ConstantIndex, accesses: Seq<Access>)
    requires
        !frame.new_targets.contains(id),
    ensures
        ({
            let after = after_accesses(frame, id, accesses);
            &&& after.non_locals == frame.non_locals
            &&& after.assigned.contains(id) <==> frame.assigned.contains(id) || times(
                accesses,
                Access::Assigned,
            ) > 0
            &&& after.was_assigned(id) <==> frame.assigned.contains(id)
        }),
    decreases accesses.len(),
{
    if accesses.len() > 0 {
        lemma_targets(frame, id, accesses.drop_last());
    }
}

/// Taking back a read of an id leaves all counts as they were before it.
pub proof fn law_unread_undoes_read(frame: FrameView, id: ConstantIndex, other: ConstantIndex)
    requires
        frame.access_count(id) < usize::MAX,
    ensures
        frame.with_access(id).without_access(id).access_count(other) == frame.access_count(other),
{
}

/// What a nested frame reads from outside is either assigned in the frame around it, or read from
/// outside by that frame too. Nothing else becomes a non-local there.
pub proof fn law_nested_non_locals(outer: FrameView, nested: FrameView, id: ConstantIndex)
    ensures
        nested.non_locals.contains(id) ==> outer.assigned.contains(id) || outer.with_nested(
            nested,
        ).non_locals.contains(id),
        outer.with_nested(nested).non_locals.contains(id) ==> outer.non_locals.contains(id)
            || nested.non_locals.contains(id),
{
}

/// What a function captures is there in the scope around it: assigned in that scope, or captured
/// by it in turn.
pub proof fn law_captures_are_available(e: Script, s: State)
    ensures
        grammar::function(e, s) matches Ok((s1, Some(node))) ==> {
            &&& s1.nodes[node as int].node matches NodeView::Function(function) && exists|
                captures: Set<ConstantIndex>,
            | #[trigger]
                Multiset::from_set(captures) == function.accessed_non_locals
                    && captures.subset_of(s1.top().assigned.union(s1.top().non_locals))
        },
{
    reveal(grammar::function);
    if let Ok((s1, Some(node))) = grammar::function(e, s) {
        if let NodeView::Function(function) = s1.nodes[node as int].node {
            let s2 = e.taken(e.spaced(s));
            let (s3, args) = grammar::function_args(e, s2, Seq::empty());
            let s5 = e.taken(e.spaced(s3));
            let s6 = State {
                frames: s5.frames.push(crate::frame::new_frame(false, args.to_set())),
                ..s5
            };
            let body = grammar::function_body(e, s6, e.indent(e.spaced(s)));
            let captures = (body->Ok_0).0.top().non_locals;
            assert(Multiset::from_set(captures) == function.accessed_non_locals);
            assert(captures.subset_of(s1.top().assigned.union(s1.top().non_locals)));
        }
    }
}

/// An assignment is to the expressions before it, in their order. Its targets can be seen from
/// everywhere if it stands at the top level and the top level is exported, and only from its scope
/// otherwise.
pub proof fn law_assignment_targets(e: Script, s: State, lhs: Seq<AstIndex>, op: AssignOp)
    requires
        e.next(s) is Some,
    ensures
        grammar::assignment(e, s, lhs, op) matches Ok((s1, node)) ==> {
            let scope = if e.export_all_top_level && s.top().top_level {
                Scope::Global
            } else {
                Scope::Local
            };
            node matches Some(node) && match s1.nodes[node as int].node {
                NodeView::Assign { target, op: assigned_op, .. } => {
                    &&& lhs.len() == 1
                    &&& target == AssignTarget { target_index: lhs[0], scope }
                    &&& assigned_op == op
                },
                NodeView::MultiAssign { targets, .. } => {
                    &&& lhs.len() > 1
                    &&& targets.len() == lhs.len()
                    &&& forall|k: int|
                        0 <= k < lhs.len() ==> #[trigger] targets[k] == (AssignTarget {
                            target_index: lhs[k],
                            scope,
                        })
                },
                _ => false,
            }
        },
{
    reveal(grammar::assignment);
}

/// An id that is given a value with `export` can be seen from everywhere, whatever the options.
pub proof fn law_exported_values_are_global(e: Script, s: State)
    ensures
        grammar::export(e, s) matches Ok((s1, Some(node))) ==> match s1.nodes[node as int].node {
            NodeView::Assign { target, op, .. } => target.scope == Scope::Global && op
                == AssignOp::Equal,
            NodeView::Id(_) => true,
            _ => false,
        },
{
    reveal(grammar::export);
    reveal(grammar::exported_value);
}

/// The end of an expression makes a non-local of an id that it has read only if the id is not
/// assigned. What is assigned stays local, and as many ids are local as before, unless an id is
/// read in an assignment of which it is a target.
pub proof fn law_finished(frame: FrameView)
    ensures
        forall|id: ConstantIndex| #[trigger]
            frame.finished().non_locals.contains(id) <==> frame.non_locals.contains(id) || (
            frame.access_count(id) > 0 && !frame.was_assigned(id)),
        forall|id: ConstantIndex|
            #![trigger frame.was_assigned(id)]
            frame.was_assigned(id) ==> frame.finished().was_assigned(id) && (
            frame.finished().non_locals.contains(id) <==> frame.non_locals.contains(id)),
        frame.finished().accesses == Map::<ConstantIndex, usize>::empty(),
        frame.finished().assigned == frame.assigned,
        frame.finished().new_targets == frame.new_targets,
        frame.finished().top_level == frame.top_level,
        (forall|id: ConstantIndex| #[trigger]
            frame.new_targets.contains(id) ==> frame.access_count(id) == 0)
            ==> frame.finished().locals() == frame.locals(),
{
    if forall|id: ConstantIndex| #[trigger]
        frame.new_targets.contains(id) ==> frame.access_count(id) == 0 {
        assert(frame.finished().locals() =~= frame.locals());
    }
}

/// An id that a loop or an import assigns is a local from then on, unless it was a non-local
/// before: reading it, or being the target of an assignment around it that is complete later, makes
/// no non-local of it.
pub proof fn law_assigned_at_once(
    frame: FrameView,
    id: ConstantIndex,
    ids: Seq<ConstantIndex>,
    accesses: Seq<Access>,
)
    ensures
        !frame.non_locals.contains(id) ==> !frame.with_assigned(id).with_access(
            id,
        ).finished().non_locals.contains(id),
        ({
            let next = after_accesses(frame.with_assigned(id), id, accesses);
            &&& next.finished().was_assigned(id)
            &&& next.finished().non_locals.contains(id) <==> frame.non_locals.contains(id)
            &&& next.with_complete(id).non_locals.contains(id) <==> frame.non_locals.contains(id)
        }),
        ids.contains(id) ==> {
            let next = after_accesses(frame.with_all_assigned(ids), id, accesses);
            &&& next.finished().was_assigned(id)
            &&& next.finished().non_locals.contains(id) <==> frame.non_locals.contains(id)
            &&& next.with_complete(id).non_locals.contains(id) <==> frame.non_locals.contains(id)
        },
{
    lemma_targets(frame.with_assigned(id), id, accesses);
    if ids.contains(id) {
        lemma_targets(frame.with_all_assigned(ids), id, accesses);
    }
}

/// The number of locals is settled by the ids that are assigned and by which of them are
/// non-locals: frames that agree on these have as many locals. It is at most the number of ids that
/// are assigned, and equal to it where none of them is a non-local.
pub proof fn law_local_count(first: FrameView, second: FrameView)
    requires
        first.assigned.finite(),
        second.assigned == first.assigned,
        forall|id: ConstantIndex| #[trigger]
            first.assigned.contains(id) ==> (first.non_locals.contains(id)
                <==> second.non_locals.contains(id)),
    ensures
        first.locals() == second.locals(),
        first.locals().len() == second.locals().len(),
        first.locals().len() <= first.assigned.len(),
        first.locals().len() == first.assigned.len() <==> first.assigned.disjoint(
            first.non_locals,
        ),
{
    assert(first.locals() =~= second.locals());
    vstd::set_lib::lemma_len_subset(first.locals(), first.assigned);
    if first.assigned.disjoint(first.non_locals) {
        assert(first.locals() =~= first.assigned);
    } else {
        let id = choose|id: ConstantIndex|
            first.assigned.contains(id) && first.non_locals.contains(id);
        vstd::set_lib::lemma_len_subset(first.locals(), first.assigned.remove(id));
    }
}

// Scripts

/// A script without anything but spaces, line breaks and comments is read as an empty main block.
pub proof fn law_empty_script(e: Script)
    requires
        forall|i: int|
            0 <= i < e.tokens.len() ==> script::is_filler((#[trigger] e.tokens[i]).token),
    ensures
        grammar::main_block(e) matches Ok((s, node)) && {
            &&& node == 0
            &&& s.at == e.tokens.len()
            &&& s.nodes == seq![
                AstNodeView {
                    node: NodeView::MainBlock { body: Seq::empty(), local_count: 0 },
                    span: token::first_span(),
                },
            ]
            &&& s.constants == Seq::<ConstantView>::empty()
        },
{
    reveal(grammar::main_block_from);
    lemma_all_fillers(e, 0);
    let frame = grammar::initial_state().top();
    assert(frame.locals() =~= Set::<ConstantIndex>::empty());
}

/// Where there are only fillers, all of them are skipped.
proof fn lemma_all_fillers(e: Script, at: int)
    requires
        0 <= at <= e.tokens.len(),
        forall|i: int|
            0 <= i < e.tokens.len() ==> script::is_filler((#[trigger] e.tokens[i]).token),
    ensures
        e.skip_fillers(at) == e.tokens.len(),
    decreases e.tokens.len() - at,
{
    if at < e.tokens.len() {
        lemma_all_fillers(e, at + 1);
    }
}

} // verus!
