//! What reading does to the scopes of a script: only the innermost scope changes, what was assigned
//! in it stays local to it, and the scopes of functions are closed again.

use crate::constant_pool::ConstantView;
use crate::frame::FrameView;
use crate::node::{ConstantIndex, NodeView};
use crate::script::{self, Outcome, Script, State};
use crate::token::Span;
use vstd::prelude::*;

mod conditions;
mod expressions;
pub mod laws;
mod lines;
mod lookups;
mod loops;
mod values;

verus! {

/// Whether reading on in a script has led from one state to another with the same scopes open, of
/// which only the innermost has changed. The ids of that scope are finitely many, and constants;
/// each token brings at most one constant.
#[verifier::opaque]
pub open spec fn keeps(e: Script, before: State, after: State) -> bool {
    &&& script::extends(before, after)
    &&& before.frames.len() > 0
    &&& after.frames.drop_last() == before.frames.drop_last()
    &&& before.top().is_finite() ==> after.top().is_finite()
    &&& before.top().ids_within(before.constants.len()) ==> after.top().ids_within(
        after.constants.len(),
    )
    &&& after.constants.len() - before.constants.len() <= after.at - before.at
    &&& before.at <= e.tokens.len() ==> after.at <= e.tokens.len()
}

/// Whether an outcome, unless it is an error, keeps the scopes.
pub open spec fn outcome_keeps<T>(e: Script, before: State, outcome: Outcome<T>) -> bool {
    outcome matches Ok((after, _)) ==> keeps(e, before, after)
}

/// What is kept twice is kept.
pub broadcast proof fn lemma_keeps_trans(e: Script, a: State, b: State, c: State)
    requires
        #[trigger] keeps(e, a, b),
        #[trigger] keeps(e, b, c),
    ensures
        keeps(e, a, c),
{
    reveal(keeps);
    reveal(script::extends);
}

/// No scope is opened or closed.
pub broadcast proof fn lemma_keeps_frames(e: Script, a: State, b: State)
    requires
        #[trigger] keeps(e, a, b),
    ensures
        a.frames.len() > 0,
        b.frames.len() == a.frames.len(),
        a.constants.len() <= b.constants.len(),
{
    reveal(keeps);
    reveal(script::extends);
}

/// A state keeps its own scopes.
pub broadcast proof fn lemma_keeps_refl(e: Script, s: State)
    requires
        s.frames.len() > 0,
    ensures
        #[trigger] keeps(e, s, s),
{
    reveal(keeps);
    reveal(script::extends);
}

/// Spaces keep the scopes.
pub broadcast proof fn lemma_spaced(e: Script, s: State)
    requires
        s.frames.len() > 0,
    ensures
        keeps(e, s, #[trigger] e.spaced(s)),
{
    reveal(keeps);
    reveal(script::extends);
    script::lemma_skip_spaces(e, s.at);
}

/// Fillers keep the scopes.
pub broadcast proof fn lemma_filled(e: Script, s: State)
    requires
        s.frames.len() > 0,
    ensures
        keeps(e, s, #[trigger] e.filled(s)),
{
    reveal(keeps);
    reveal(script::extends);
    script::lemma_skip_fillers(e, s.at);
}

/// A token keeps the scopes.
pub broadcast proof fn lemma_taken(e: Script, s: State)
    requires
        s.frames.len() > 0,
    ensures
        keeps(e, s, #[trigger] e.taken(s)),
{
    reveal(keeps);
    reveal(script::extends);
}

/// A token, what follows it, and a constant for them keep the scopes.
pub proof fn lemma_constant(e: Script, s: State, next: State, constant: ConstantView)
    requires
        e.next(s) is Some,
        keeps(e, e.taken(s), next),
        s.frames.len() > 0,
    ensures
        keeps(e, s, next.add_constant(constant).0),
        next.add_constant(constant).1 < next.add_constant(constant).0.constants.len(),
{
    reveal(keeps);
    reveal(script::extends);
}

/// An id keeps the scopes, and is a constant.
pub broadcast proof fn lemma_kept_by_id(e: Script, s: State, allow_placeholders: bool)
    requires
        s.frames.len() > 0,
    ensures
        keeps(e, s, (#[trigger] e.id(s, allow_placeholders)).0),
        e.id(s, allow_placeholders).1 matches Some(id) ==> id < e.id(
            s,
            allow_placeholders,
        ).0.constants.len(),
{
    reveal(Script::id);
    let s1 = e.spaced(s);
    let s2 = e.taken(s1);
    lemma_spaced(e, s);
    lemma_keeps_frames(e, s, s1);
    lemma_keeps_refl(e, s2);
    if e.next(s1) is Some {
        let constant = ConstantView::Str(e.text(s2));
        lemma_constant(e, s1, s2, constant);
        lemma_keeps_trans(e, s, s1, s2.add_constant(constant).0);
    }
}

/// A node keeps the scopes.
pub broadcast proof fn lemma_spanned_node(
    e: Script,
    before: State,
    s: State,
    node: NodeView,
    span: Span,
)
    requires
        #[trigger] keeps(e, before, s),
    ensures
        outcome_keeps(e, before, #[trigger] s.add_spanned_node(node, span)),
{
    reveal(keeps);
    reveal(script::extends);
}

/// A node keeps the scopes.
pub broadcast proof fn lemma_node(e: Script, s: State, node: NodeView)
    requires
        s.frames.len() > 0,
    ensures
        outcome_keeps(e, s, #[trigger] e.add_node(s, node)),
{
    lemma_keeps_refl(e, s);
    lemma_spanned_node(e, s, s, node, e.span(s));
}

/// The innermost scope may grow.
pub proof fn lemma_top(e: Script, s: State, frame: FrameView)
    requires
        s.frames.len() > 0,
        s.top().grows_to(frame),
        s.top().is_finite() ==> frame.is_finite(),
        s.top().ids_within(s.constants.len()) ==> frame.ids_within(s.constants.len()),
    ensures
        keeps(e, s, s.with_top(frame)),
{
    reveal(keeps);
    reveal(script::extends);
    assert(s.with_top(frame).frames.drop_last() =~= s.frames.drop_last());
}

/// Reading an id changes the innermost scope alone.
pub broadcast proof fn lemma_access(e: Script, before: State, s: State, id: ConstantIndex)
    requires
        #[trigger] keeps(e, before, s),
        id < s.constants.len(),
    ensures
        keeps(e, before, #[trigger] s.with_top(s.top().with_access(id))),
{
    lemma_keeps_frames(e, before, s);
    lemma_top(e, s, s.top().with_access(id));
    lemma_keeps_trans(e, before, s, s.with_top(s.top().with_access(id)));
}

/// Assigning an id changes the innermost scope alone.
pub broadcast proof fn lemma_assigned(e: Script, before: State, s: State, id: ConstantIndex)
    requires
        #[trigger] keeps(e, before, s),
        id < s.constants.len(),
    ensures
        keeps(e, before, #[trigger] s.with_top(s.top().with_assigned(id))),
{
    lemma_keeps_frames(e, before, s);
    lemma_top(e, s, s.top().with_assigned(id));
    lemma_keeps_trans(e, before, s, s.with_top(s.top().with_assigned(id)));
}

/// Assigning several ids changes the innermost scope alone.
pub broadcast proof fn lemma_all_assigned(
    e: Script,
    before: State,
    s: State,
    ids: Seq<ConstantIndex>,
)
    requires
        #[trigger] keeps(e, before, s),
        are_within(ids, s.constants.len()),
    ensures
        keeps(e, before, #[trigger] s.with_top(s.top().with_all_assigned(ids))),
{
    lemma_keeps_frames(e, before, s);
    lemma_top(e, s, s.top().with_all_assigned(ids));
    lemma_keeps_trans(e, before, s, s.with_top(s.top().with_all_assigned(ids)));
}

/// The end of a line changes the innermost scope alone.
pub broadcast proof fn lemma_finished(e: Script, before: State, s: State)
    requires
        #[trigger] keeps(e, before, s),
    ensures
        keeps(e, before, #[trigger] s.with_top(s.top().finished())),
{
    lemma_keeps_frames(e, before, s);
    let top = s.top();
    if top.is_finite() {
        let read = Set::new(|id: ConstantIndex| top.reads_non_local(id));
        assert(read.subset_of(top.accesses.dom()));
        vstd::set_lib::lemma_set_subset_finite(top.accesses.dom(), read);
    }
    lemma_top(e, s, top.finished());
    lemma_keeps_trans(e, before, s, s.with_top(top.finished()));
}

/// Whether the ids are among the first `count` constants.
pub open spec fn are_within(ids: Seq<ConstantIndex>, count: nat) -> bool {
    forall|k: int| 0 <= k < ids.len() ==> (#[trigger] ids[k]) < count
}

pub broadcast group group_keeps {
    lemma_keeps_trans,
    lemma_keeps_frames,
    lemma_keeps_refl,
    lemma_spaced,
    lemma_filled,
    lemma_taken,
    lemma_kept_by_id,
    lemma_spanned_node,
    lemma_node,
    lemma_access,
    lemma_assigned,
    lemma_all_assigned,
    lemma_finished,
}

} // verus!
