//! The scopes of a script.

use crate::constant_pool::ConstantView;
use crate::node::ConstantIndex;
use crate::tree;
use std::collections::{HashMap, HashSet};
use vstd::multiset::Multiset;
use vstd::prelude::*;

verus! {

broadcast use vstd::std_specs::hash::group_hash_axioms;

/// What a [`Frame`] holds.
pub struct FrameView {
    pub top_level: bool,
    pub assigned: Set<ConstantIndex>,
    pub new_targets: Set<ConstantIndex>,
    pub non_locals: Set<ConstantIndex>,
    pub accesses: Map<ConstantIndex, usize>,
}

/// A scope: the main block of a script, or the body of a function.
///
/// While an expression is being read it is not known whether an id in it is the target of an
/// assignment. So the reads of each id are counted: one more for each id that is read, one less
/// for each that turns out to be a target. When the expression is complete, an id with a positive
/// count has been read; if it was not assigned in the frame before, it is a non-local. A target is
/// assigned when its assignment is complete, and not before. The ids of a `for` loop or an `import`
/// are assigned at once, even where they are targets of an assignment around it.
///
/// In `|| a = 1` the count of `a` ends at 0, so that `a` is a local. In `|| a = a` and in
/// `|| a = a = a` it ends at 1, so that `a` is first read as a non-local. It ends at 1 as well in
/// `|| a = [a for a in b]`, but there the loop has assigned `a`, so that `a` is a local.
#[derive(Debug)]
pub struct Frame {
    top_level: bool,
    /// The ids that have been assigned in the frame.
    ids_assigned_in_scope: HashSet<ConstantIndex>,
    /// The ids among them that are targets of assignments which are not complete, and that nothing
    /// else has assigned.
    new_targets: HashSet<ConstantIndex>,
    /// The ids that were read before they were assigned in the frame.
    accessed_non_locals: HashSet<ConstantIndex>,
    /// How often each id of the current expression has been read and not assigned.
    expression_id_accesses: HashMap<ConstantIndex, usize>,
}

impl View for Frame {
    type V = FrameView;

    closed spec fn view(&self) -> FrameView {
        FrameView {
            top_level: self.top_level,
            assigned: self.ids_assigned_in_scope@,
            new_targets: self.new_targets@,
            non_locals: self.accessed_non_locals@,
            accesses: self.expression_id_accesses@,
        }
    }
}

impl FrameView {
    /// The ids that only the frame itself needs room for.
    pub open spec fn locals(self) -> Set<ConstantIndex> {
        self.assigned.difference(self.non_locals)
    }

    /// The frame with an id assigned in it at once, other than as a target.
    pub open spec fn with_assigned(self, id: ConstantIndex) -> FrameView {
        FrameView {
            assigned: self.assigned.insert(id),
            new_targets: self.new_targets.remove(id),
            ..self
        }
    }

    /// The frame with several ids assigned in it at once, other than as targets.
    pub open spec fn with_all_assigned(self, ids: Seq<ConstantIndex>) -> FrameView {
        FrameView {
            assigned: self.assigned.union(ids.to_set()),
            new_targets: self.new_targets.difference(ids.to_set()),
            ..self
        }
    }

    /// The frame with an id as a target of an assignment.
    pub open spec fn with_target(self, id: ConstantIndex) -> FrameView {
        FrameView {
            assigned: self.assigned.insert(id),
            new_targets: if self.assigned.contains(id) {
                self.new_targets
            } else {
                self.new_targets.insert(id)
            },
            ..self
        }
    }

    /// The frame when the assignment to a target is complete. Where the id has been read before,
    /// and was not assigned, it is a non-local.
    pub open spec fn with_complete(self, id: ConstantIndex) -> FrameView {
        FrameView {
            new_targets: self.new_targets.remove(id),
            non_locals: if self.new_targets.contains(id) && self.access_count(id) > 0 {
                self.non_locals.insert(id)
            } else {
                self.non_locals
            },
            ..self
        }
    }

    /// Whether an id has been assigned in the frame, by something that is complete.
    pub open spec fn was_assigned(self, id: ConstantIndex) -> bool {
        self.assigned.contains(id) && !self.new_targets.contains(id)
    }

    /// How often an id of the current expression has been read and not assigned.
    pub open spec fn access_count(self, id: ConstantIndex) -> nat {
        if self.accesses.contains_key(id) {
            self.accesses[id] as nat
        } else {
            0
        }
    }

    /// The frame with an id read once more.
    pub open spec fn with_access(self, id: ConstantIndex) -> FrameView {
        FrameView {
            accesses: self.accesses.insert(id, (self.access_count(id) + 1) as usize),
            ..self
        }
    }

    /// The frame with an id read once less.
    pub open spec fn without_access(self, id: ConstantIndex) -> FrameView {
        FrameView {
            accesses: self.accesses.insert(id, (self.access_count(id) - 1) as usize),
            ..self
        }
    }

    /// Whether the current expression reads an id from a scope around the frame.
    pub open spec fn reads_non_local(self, id: ConstantIndex) -> bool {
        self.access_count(id) > 0 && !self.was_assigned(id)
    }

    /// The frame when the current expression is complete.
    pub open spec fn finished(self) -> FrameView {
        FrameView {
            non_locals: self.non_locals.union(
                Set::new(|id: ConstantIndex| self.reads_non_local(id)),
            ),
            accesses: Map::empty(),
            ..self
        }
    }

    /// The frame around a nested frame that is complete: what the nested frame reads from outside
    /// is read by this frame too, unless it is assigned here.
    pub open spec fn with_nested(self, nested: FrameView) -> FrameView {
        FrameView {
            non_locals: self.non_locals.union(nested.non_locals.difference(self.assigned)),
            ..self
        }
    }

    /// Whether the frame can become another one by reading on: an id that was assigned stays so,
    /// and does not become a non-local.
    pub open spec fn grows_to(self, next: FrameView) -> bool {
        forall|id: ConstantIndex| #[trigger]
            self.was_assigned(id) ==> next.was_assigned(id) && (next.non_locals.contains(id)
                ==> self.non_locals.contains(id))
    }

    /// Whether the frame holds finitely many ids.
    pub open spec fn is_finite(self) -> bool {
        &&& self.assigned.finite()
        &&& self.non_locals.finite()
        &&& self.accesses.dom().finite()
    }

    /// Whether the ids that are assigned or read are among the first `count` constants.
    pub open spec fn ids_within(self, count: nat) -> bool {
        forall|id: ConstantIndex|
            #![trigger self.assigned.contains(id)]
            #![trigger self.accesses.contains_key(id)]
            self.assigned.contains(id) || self.accesses.contains_key(id) ==> id < count
    }

    /// Every id of the frame is a string among the constants.
    pub open spec fn has_names(self, constants: Seq<ConstantView>) -> bool {
        forall|id: ConstantIndex|
            self.assigned.contains(id) || self.non_locals.contains(id)
                || self.accesses.contains_key(id) ==> #[trigger] tree::is_string(constants, id)
    }

    /// No id has been read more than `bound` times.
    pub open spec fn accesses_within(self, bound: nat) -> bool {
        forall|id: ConstantIndex| #[trigger] self.access_count(id) <= bound
    }
}

/// The ids of a frame are still strings when a constant is added.
pub proof fn lemma_more_names(
    frame: FrameView,
    constants: Seq<ConstantView>,
    constant: ConstantView,
)
    requires
        frame.has_names(constants),
    ensures
        frame.has_names(constants.push(constant)),
{
    assert forall|id: ConstantIndex|
        frame.assigned.contains(id) || frame.non_locals.contains(id)
            || frame.accesses.contains_key(id) implies #[trigger] tree::is_string(
        constants.push(constant),
        id,
    ) by {
        assert(tree::is_string(constants, id));
    }
}

/// A frame in which nothing has been read, with the given ids assigned.
pub open spec fn new_frame(top_level: bool, assigned: Set<ConstantIndex>) -> FrameView {
    FrameView {
        top_level,
        assigned,
        new_targets: Set::empty(),
        non_locals: Set::empty(),
        accesses: Map::empty(),
    }
}

impl Frame {
    /// A frame in which nothing has been read, with the given ids assigned.
    pub fn new(top_level: bool, assigned: &Vec<ConstantIndex>) -> (frame: Self)
        ensures
            frame@ == new_frame(top_level, assigned@.to_set()),
    {
        let mut ids: HashSet<ConstantIndex> = HashSet::new();
        let mut i: usize = 0;
        while i < assigned.len()
            invariant
                i <= assigned.len(),
                ids@ == assigned@.take(i as int).to_set(),
            decreases assigned.len() - i,
        {
            ids.insert(assigned[i]);
            i = i + 1;
            proof {
                lemma_take_set(assigned@, i as int);
            }
        }
        assert(assigned@.take(i as int) =~= assigned@);
        Frame {
            top_level,
            ids_assigned_in_scope: ids,
            new_targets: HashSet::new(),
            accessed_non_locals: HashSet::new(),
            expression_id_accesses: HashMap::new(),
        }
    }

    /// Whether this is the scope of the main block.
    pub fn is_top_level(&self) -> (r: bool)
        ensures
            r == self@.top_level,
    {
        self.top_level
    }

    /// The number of ids that are assigned in the frame and local to it.
    pub fn local_count(&self) -> (count: usize)
        ensures
            count == self@.locals().len(),
            self@.assigned.finite(),
            count <= self@.assigned.len(),
    {
        let ids = set_items(&self.ids_assigned_in_scope);
        let mut count: usize = 0;
        let ghost mut seen: Set<ConstantIndex> = Set::empty();
        let mut i: usize = 0;
        while i < ids.len()
            invariant
                i <= ids.len(),
                count <= i,
                ids@.no_duplicates(),
                seen.finite(),
                seen.len() == count,
                forall|id: ConstantIndex|
                    seen.contains(id) <==> ids@.take(i as int).to_set().contains(id)
                        && !self.accessed_non_locals@.contains(id),
            decreases ids.len() - i,
        {
            let id = ids[i];
            assert(!ids@.take(i as int).contains(id));
            i = i + 1;
            proof {
                lemma_take_set(ids@, i as int);
            }
            if !self.accessed_non_locals.contains(&id) {
                count = count + 1;
                proof {
                    seen = seen.insert(id);
                }
            }
        }
        assert(ids@.take(i as int) =~= ids@);
        assert(seen =~= self@.locals());
        proof {
            vstd::set_lib::lemma_len_subset(seen, self@.assigned);
        }
        count
    }

    /// Takes over the ids that a nested frame reads from outside and that are not assigned here.
    /// So the ids that a function captures are there when the function around it is entered.
    pub fn add_nested_accessed_non_locals(&mut self, nested_frame: &Frame)
        ensures
            final(self)@ == old(self)@.with_nested(nested_frame@),
    {
        let ids = set_items(&nested_frame.accessed_non_locals);
        let mut i: usize = 0;
        assert(self@.non_locals =~= old(self)@.non_locals.union(
            ids@.take(0).to_set().difference(old(self)@.assigned),
        ));
        while i < ids.len()
            invariant
                i <= ids.len(),
                ids@.to_set() == nested_frame@.non_locals,
                self@ == (FrameView {
                    non_locals: old(self)@.non_locals.union(
                        ids@.take(i as int).to_set().difference(old(self)@.assigned),
                    ),
                    ..old(self)@
                }),
            decreases ids.len() - i,
        {
            let id = ids[i];
            i = i + 1;
            proof {
                lemma_take_set(ids@, i as int);
            }
            if !self.ids_assigned_in_scope.contains(&id) {
                self.accessed_non_locals.insert(id);
            }
            assert(self@.non_locals =~= old(self)@.non_locals.union(
                ids@.take(i as int).to_set().difference(old(self)@.assigned),
            ));
        }
        assert(ids@.take(i as int) =~= ids@);
    }

    /// Counts one more read of an id in the current expression.
    pub fn increment_expression_access_for_id(&mut self, id: ConstantIndex)
        requires
            old(self)@.access_count(id) < usize::MAX,
        ensures
            final(self)@ == old(self)@.with_access(id),
    {
        let count = match self.expression_id_accesses.get(&id) {
            Some(count) => *count,
            None => 0,
        };
        self.expression_id_accesses.insert(id, count + 1);
    }

    /// Counts one read of an id less, for an id that turns out to be assigned. Fails where the id
    /// does not occur in the current expression.
    pub fn decrement_expression_access_for_id(&mut self, id: ConstantIndex) -> (r: Result<(), ()>)
        requires
            old(self)@.accesses.contains_key(id) ==> old(self)@.accesses[id] > 0,
        ensures
            r is Ok <==> old(self)@.accesses.contains_key(id),
            r is Ok ==> final(self)@ == old(self)@.without_access(id),
            r is Err ==> final(self)@ == old(self)@,
    {
        match self.expression_id_accesses.get(&id) {
            Some(count) => {
                let count = *count;
                self.expression_id_accesses.insert(id, count - 1);
                Ok(())
            },
            None => Err(()),
        }
    }

    /// Ends the current expression: the ids that it reads and that were not assigned in the frame
    /// before are non-locals.
    pub fn finish_expressions(&mut self)
        ensures
            final(self)@ == old(self)@.finished(),
    {
        let ids = map_keys(&self.expression_id_accesses);
        let mut i: usize = 0;
        assert(self@.non_locals =~= old(self)@.non_locals.union(
            Set::new(
                |id: ConstantIndex|
                    ids@.take(0).to_set().contains(id) && old(self)@.reads_non_local(id),
            ),
        ));
        while i < ids.len()
            invariant
                i <= ids.len(),
                ids@.to_set() == old(self)@.accesses.dom(),
                self@ == (FrameView {
                    non_locals: old(self)@.non_locals.union(
                        Set::new(
                            |id: ConstantIndex|
                                ids@.take(i as int).to_set().contains(id)
                                    && old(self)@.reads_non_local(id),
                        ),
                    ),
                    ..old(self)@
                }),
            decreases ids.len() - i,
        {
            let id = ids[i];
            assert(ids@.to_set().contains(id));
            i = i + 1;
            proof {
                lemma_take_set(ids@, i as int);
            }
            if let Some(count) = self.expression_id_accesses.get(&id) {
                if *count > 0 && (!self.ids_assigned_in_scope.contains(&id)
                    || self.new_targets.contains(&id)) {
                    self.accessed_non_locals.insert(id);
                }
            }
            assert(self@.non_locals =~= old(self)@.non_locals.union(
                Set::new(
                    |id: ConstantIndex|
                        ids@.take(i as int).to_set().contains(id) && old(
                            self,
                        )@.reads_non_local(id),
                ),
            ));
        }
        assert(ids@.take(i as int) =~= ids@);
        self.expression_id_accesses.clear();
        assert(self@.non_locals =~= old(self)@.finished().non_locals);
    }

    /// Assigns an id in the frame at once, other than as a target.
    pub fn assign(&mut self, id: ConstantIndex)
        ensures
            final(self)@ == old(self)@.with_assigned(id),
    {
        self.ids_assigned_in_scope.insert(id);
        self.new_targets.remove(&id);
    }

    /// Assigns an id in the frame, as a target of an assignment.
    pub fn assign_target(&mut self, id: ConstantIndex)
        ensures
            final(self)@ == old(self)@.with_target(id),
    {
        if !self.ids_assigned_in_scope.contains(&id) {
            self.new_targets.insert(id);
        }
        self.ids_assigned_in_scope.insert(id);
    }

    /// Ends the assignment to a target.
    pub fn complete_target(&mut self, id: ConstantIndex)
        ensures
            final(self)@ == old(self)@.with_complete(id),
    {
        if self.new_targets.contains(&id) {
            if let Some(count) = self.expression_id_accesses.get(&id) {
                if *count > 0 {
                    self.accessed_non_locals.insert(id);
                }
            }
        }
        self.new_targets.remove(&id);
    }

    /// The number of reads of an id in the current expression, if it occurs there.
    pub fn access(&self, id: ConstantIndex) -> (r: Option<usize>)
        ensures
            r == (if self@.accesses.contains_key(id) {
                Some(self@.accesses[id])
            } else {
                None
            }),
    {
        match self.expression_id_accesses.get(&id) {
            Some(count) => Some(*count),
            None => None,
        }
    }

    /// The ids that the frame reads from outside, each once, in no particular order.
    pub fn non_locals(&self) -> (ids: Vec<ConstantIndex>)
        ensures
            ids@.to_multiset() == Multiset::from_set(self@.non_locals),
            ids@.to_set() == self@.non_locals,
            self@.non_locals.finite(),
    {
        let ids = set_items(&self.accessed_non_locals);
        proof {
            lemma_distinct_items(ids@);
        }
        ids
    }
}

/// The ids of a set, each once, in no particular order.
fn set_items(ids: &HashSet<ConstantIndex>) -> (items: Vec<ConstantIndex>)
    ensures
        items@.no_duplicates(),
        items@.to_set() == ids@,
        items@.len() == ids@.len(),
{
    let mut items: Vec<ConstantIndex> = Vec::new();
    for id in iter: ids.iter()
        invariant
            items@.len() == iter.index(),
            forall|k: int| 0 <= k < items@.len() ==> items@[k] == *(#[trigger] iter.seq()[k]),
            iter.seq().unref().to_set() == ids@,
            iter.seq().no_duplicates(),
            iter.seq().len() == ids@.len(),
    {
        items.push(*id);
    }
    proof {
        let seq = vstd::std_specs::iter::IteratorSpec::remaining(
            &vstd::std_specs::hash::spec_hash_keys_iter(ids),
        );
        assert(items@ =~= seq.unref());
    }
    items
}

/// The keys of a map, in no particular order.
fn map_keys(map: &HashMap<ConstantIndex, usize>) -> (keys: Vec<ConstantIndex>)
    ensures
        keys@.to_set() == map@.dom(),
{
    let mut keys: Vec<ConstantIndex> = Vec::new();
    for key in iter: map.keys()
        invariant
            keys@.len() == iter.index(),
            forall|k: int| 0 <= k < keys@.len() ==> keys@[k] == *(#[trigger] iter.seq()[k]),
            iter.seq().unref().to_set() == map@.dom(),
    {
        keys.push(*key);
    }
    proof {
        let seq = vstd::std_specs::iter::IteratorSpec::remaining(
            &vstd::std_specs::hash::spec_keys_iter(map),
        );
        assert(keys@ =~= seq.unref());
    }
    keys
}

/// The items of a sequence without repetition, as a multiset.
proof fn lemma_distinct_items(items: Seq<ConstantIndex>)
    requires
        items.no_duplicates(),
    ensures
        items.to_multiset() == Multiset::from_set(items.to_set()),
{
    broadcast use vstd::seq_lib::group_to_multiset_ensures;
    broadcast use vstd::multiset::group_multiset_axioms;

    items.lemma_multiset_has_no_duplicates();
    let set = items.to_set();
    let ones = Map::new(|id: ConstantIndex| set.contains(id), |id: ConstantIndex| 1nat);
    assert(ones.dom() =~= set);
    vstd::seq_lib::seq_to_set_is_finite(items);
    assert forall|id: ConstantIndex|
        items.to_multiset().count(id) == Multiset::from_set(set).count(id) by {
        assert(items.contains(id) <==> items.to_multiset().contains(id));
        assert(set.contains(id) <==> items.contains(id));
    }
    assert(items.to_multiset() =~= Multiset::from_set(set));
}

/// A multiset that is made from a set holds each item of the set once.
pub proof fn lemma_each_once(ids: Set<ConstantIndex>)
    requires
        ids.finite(),
    ensures
        forall|id: ConstantIndex| #[trigger]
            Multiset::from_set(ids).count(id) == if ids.contains(id) {
                1nat
            } else {
                0nat
            },
{
    broadcast use vstd::multiset::group_multiset_axioms;

    let ones = Map::new(|id: ConstantIndex| ids.contains(id), |id: ConstantIndex| 1nat);
    assert(ones.dom() =~= ids);
}

/// The ids before a place, with the id at the place, are the ids up to it.
pub proof fn lemma_take_set(ids: Seq<ConstantIndex>, i: int)
    requires
        0 < i <= ids.len(),
    ensures
        ids.take(i).to_set() == ids.take(i - 1).to_set().insert(ids[i - 1]),
{
    let before = ids.take(i - 1);
    assert(ids.take(i) =~= before.push(ids[i - 1]));
    assert forall|id: ConstantIndex|
        ids.take(i).to_set().contains(id) == before.to_set().insert(ids[i - 1]).contains(id) by {
        if before.contains(id) {
            let k = before.index_of(id);
            assert(ids.take(i)[k] == id);
        }
        if id == ids[i - 1] {
            assert(ids.take(i)[i - 1] == id);
        }
        if ids.take(i).contains(id) {
            let k = ids.take(i).index_of(id);
            if k < i - 1 {
                assert(before[k] == id);
            }
        }
    }
    assert(ids.take(i).to_set() =~= before.to_set().insert(ids[i - 1]));
}

} // verus!
