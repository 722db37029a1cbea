//! What a line and a function leave of the scopes.

use crate::constant_pool::ConstantView;
use crate::frame::{self, FrameView};
use crate::grammar;
use crate::node::{AstIndex, ConstantIndex, NodeView};
use crate::scopes;
use crate::scopes::lines;
use crate::script::{self, Script, State};
use crate::token::Token;
use vstd::prelude::*;

verus! {

broadcast use {crate::script::group_places, crate::scopes::group_keeps};

/// Behind a line the same scopes are open as before it, those around the innermost are unchanged,
/// and in the innermost no read is left open.
pub proof fn law_line_leaves_scopes(e: Script, s: State)
    requires
        s.frames.len() > 0,
    ensures
        grammar::line(e, s) matches Ok((s1, Some(_))) ==> {
            &&& s1.frames.len() == s.frames.len()
            &&& s1.frames.drop_last() == s.frames.drop_last()
            &&& s.top().grows_to(s1.top())
            &&& s1.top().accesses == Map::<ConstantIndex, usize>::empty()
        },
{
    reveal(grammar::line);
    lines::lemma_line(e, s);
    reveal(scopes::keeps);
    reveal(script::extends);
    if let Ok((s1, Some(_))) = grammar::line_form(e, e.spaced(s)) {
        assert(s1.with_top(s1.top().finished()).top() == s1.top().finished());
    }
}

/// Whether a node is a function with the given frame for its body, and reading it has changed the
/// scopes from those of one state to those of another.
pub open spec fn is_function_with(
    before: State,
    after: State,
    node: AstIndex,
    body: FrameView,
) -> bool {
    after.nodes[node as int].node matches NodeView::Function(function) && {
        // The scopes around the function
        &&& after.frames == before.with_top(before.top().with_nested(body)).frames
        &&& after.top().non_locals == before.top().non_locals.union(
            body.non_locals.difference(before.top().assigned),
        )
        // What it captures
        &&& forall|id: ConstantIndex| #[trigger]
            function.accessed_non_locals.count(id) == if body.non_locals.contains(id) {
                1nat
            } else {
                0nat
            }
        &&& forall|k: int|
            0 <= k < function.args.len() ==> !body.non_locals.contains(
                #[trigger] function.args[k],
            )
        // What is local to it
        &&& body.is_finite()
        &&& function.args.to_set().subset_of(body.locals())
        &&& function.args.to_set().len() <= body.locals().len()
        // Whether it is one of an instance
        &&& function.is_instance_function <==> function.args.len() > 0
            && after.constants[function.args[0] as int] == ConstantView::Str("self"@)
    }
}

/// Whether a function counts the locals of the frame for its body.
pub open spec fn counts_locals(after: State, node: AstIndex, body: FrameView) -> bool {
    after.nodes[node as int].node matches NodeView::Function(function) && function.local_count
        == body.locals().len()
}

/// Ids that are among the first `count` constants are no more than these.
proof fn lemma_ids_within(ids: Set<ConstantIndex>, count: nat)
    requires
        ids.finite(),
        forall|id: ConstantIndex| #[trigger] ids.contains(id) ==> id < count,
    ensures
        ids.len() <= count,
    decreases count,
{
    if count == 0 {
        assert(ids =~= Set::empty());
    } else if count - 1 <= u32::MAX {
        let last = (count - 1) as ConstantIndex;
        lemma_ids_within(ids.remove(last), (count - 1) as nat);
    } else {
        lemma_ids_within(ids, (count - 1) as nat);
    }
}

/// A function is read with a scope of its own, in which its arguments are assigned. It captures
/// what that scope reads from outside, no id twice and no argument; it has at least as many locals
/// as it has distinct arguments, and counts them. The scopes around it stay as they were, but that
/// what the function captures, and what is not assigned in the scope around it, is read by that
/// scope too.
pub proof fn law_function_closes_its_scope(e: Script, s: State)
    requires
        s.frames.len() > 0,
    ensures
        grammar::function(e, s) matches Ok((s1, found)) ==> found matches Some(node) && exists|
            body: FrameView,
        |
            {
                &&& #[trigger] is_function_with(s, s1, node, body)
                &&& e.is_reached(s) || body.locals().len() <= usize::MAX ==> counts_locals(
                    s1,
                    node,
                    body,
                )
            },
{
    reveal(grammar::function);
    let s1 = e.spaced(s);
    let s2 = e.taken(s1);
    let (s3, args) = grammar::function_args(e, s2, Seq::empty());
    lines::lemma_function_args(e, s2, Seq::empty());
    lemma_args_within(e, s2, Seq::empty());
    let s4 = e.spaced(s3);
    let s5 = e.taken(s4);
    if e.next(s1) == Some(Token::Function) && e.next(s4) == Some(Token::Function) {
        let opened = frame::new_frame(false, args.to_set());
        let s6 = State { frames: s5.frames.push(opened), ..s5 };
        lines::lemma_function_body(e, s6, e.indent(s1));
        lines::lemma_function_args_frames(e, s2, Seq::empty());
        if let Ok((s7, _)) = grammar::function_body(e, s6, e.indent(s1)) {
            let inner = s7.top();
            assert(s6.frames.drop_last() =~= s5.frames);
            assert(s6.top() == opened);
            assert(s7.frames.drop_last() == s.frames && opened.grows_to(inner)
                && inner.is_finite() && script::extends(s5, State { frames: s5.frames, ..s7 })
                && inner.ids_within(s7.constants.len()) && (e.is_reached(s) ==> e.is_reached(s7)))
                by {
                reveal(scopes::keeps);
                reveal(script::extends);
                assert(args.to_set().finite());
            }
            lemma_ids_within(inner.locals(), s7.constants.len());
            assert forall|arg: ConstantIndex| args.to_set().contains(arg) implies #[trigger]
                inner.locals().contains(arg) by {
                assert(opened.was_assigned(arg));
            }
            vstd::set_lib::lemma_len_subset(args.to_set(), inner.locals());
            assert forall|k: int| 0 <= k < args.len() implies !inner.non_locals.contains(
                #[trigger] args[k],
            ) by {
                assert(args.to_set().contains(args[k]));
                assert(inner.locals().contains(args[k]));
            }
            frame::lemma_each_once(inner.non_locals);
            if let Ok((after, Some(node))) = grammar::function(e, s) {
                reveal(script::extends);
                assert(after.frames =~= s.with_top(s.top().with_nested(inner)).frames);
                assert(after.constants == s7.constants);
                assert(is_function_with(s, after, node, inner));
                if e.is_reached(s) {
                    assert(counts_locals(after, node, inner));
                }
            }
        }
    }
}

/// The arguments of a function are constants.
proof fn lemma_args_within(e: Script, s: State, args: Seq<ConstantIndex>)
    requires
        forall|k: int| 0 <= k < args.len() ==> (#[trigger] args[k]) < s.constants.len(),
    ensures
        ({
            let (s1, all) = grammar::function_args(e, s, args);
            forall|k: int| 0 <= k < all.len() ==> (#[trigger] all[k]) < s1.constants.len()
        }),
    decreases e.left(s),
{
    reveal(grammar::function_args);
    let found = e.id(e.filled(s), true);
    assert(s.constants.len() <= found.0.constants.len()) by {
        reveal(Script::id);
    }
    if let (s1, Some(arg)) = found {
        assert(arg < s1.constants.len()) by {
            reveal(Script::id);
        }
        lemma_args_within(e, s1, args.push(arg));
        assert(grammar::function_args(e, s, args) == grammar::function_args(e, s1, args.push(arg)));
    } else {
        assert(grammar::function_args(e, s, args) == (found.0, args));
    }
}

} // verus!
