use vstd::prelude::*;

use super::conversion::ProofProcessError;
use crate::constraints::posting::ConstraintTag;
use crate::predicates::Predicate;

verus! {

/// Identifies a propagator that was added to the solver.
#[derive(Clone, Copy, Debug, PartialEq, Eq, Hash, Structural)]
pub struct PropagatorHandle {
    pub id: u32,
}

/// Identifies the constraint behind an inference, together with the kind of reasoning.
#[derive(Clone, Debug, PartialEq, Eq)]
pub struct InferenceCode {
    pub tag: ConstraintTag,
    pub label: String,
}

/// A deduction of the proof that was added to the solver as a propagator.
#[derive(Clone, Debug, PartialEq, Eq)]
pub struct PostedDeduction {
    pub predicates: Vec<Predicate>,
    pub handle: PropagatorHandle,
    /// Whether the deduction is needed for the conclusion.
    pub marked: bool,
}

/// The deductions of the proof by constraint tag; a tag without a deduction holds `None`.
#[derive(Debug)]
pub struct DeductionStack {
    entries: Vec<Option<PostedDeduction>>,
}

/// The entry with its mark set.
pub open spec fn marked_entry(entry: Option<PostedDeduction>) -> Option<PostedDeduction> {
    match entry {
        Some(d) => Some(PostedDeduction { marked: true, ..d }),
        None => None,
    }
}

impl DeductionStack {
    pub closed spec fn view(self) -> Seq<Option<PostedDeduction>> {
        self.entries@
    }

    /// The empty stack.
    pub fn new() -> (s: DeductionStack)
        ensures
            s.view() == Seq::<Option<PostedDeduction>>::empty(),
    {
        DeductionStack { entries: Vec::new() }
    }

    /// The number of tags the stack has room for.
    pub fn len(&self) -> (n: usize)
        ensures
            n == self.view().len(),
    {
        self.entries.len()
    }

    /// Makes room for `tag`, filling new places with `None`.
    pub fn accomodate(&mut self, tag: ConstraintTag)
        requires
            tag.id < usize::MAX,
        ensures
            final(self).view().len() == if old(self).view().len() > tag.id {
                old(self).view().len() as int
            } else {
                tag.id + 1
            },
            forall|i: int| 0 <= i < old(self).view().len() ==> #[trigger] final(self).view()[i] == old(self).view()[i],
            forall|i: int|
                old(self).view().len() <= i < final(self).view().len() ==> #[trigger] final(self).view()[i] is None,
    {
        let target = tag.id as usize + 1;
        while self.entries.len() < target
            invariant
                old(self).view().len() <= self.entries@.len(),
                self.entries@.len() <= target || self.entries@.len() == old(self).view().len(),
                forall|i: int| 0 <= i < old(self).view().len() ==> #[trigger] self.entries@[i] == old(self).view()[i],
                forall|i: int| old(self).view().len() <= i < self.entries@.len() ==> #[trigger] self.entries@[i] is None,
            decreases target - self.entries@.len(),
        {
            self.entries.push(None);
        }
    }

    /// Places a deduction at `tag`.
    pub fn set(&mut self, tag: ConstraintTag, deduction: PostedDeduction)
        requires
            tag.id < old(self).view().len(),
        ensures
            final(self).view() == old(self).view().update(tag.id as int, Some(deduction)),
    {
        self.entries.set(tag.id as usize, Some(deduction));
    }

    /// Records the deduction with the given nogood, posted to the solver under `handle`, at
    /// `tag`; it starts out unmarked.
    pub fn insert_posted(&mut self, tag: ConstraintTag, predicates: Vec<Predicate>, handle: PropagatorHandle)
        requires
            tag.id < usize::MAX,
        ensures
            final(self).view().len() == if old(self).view().len() > tag.id {
                old(self).view().len() as int
            } else {
                tag.id + 1
            },
            final(self).view()[tag.id as int] == Some(
                PostedDeduction { predicates, handle, marked: false },
            ),
            forall|i: int|
                0 <= i < old(self).view().len() && i != tag.id ==> #[trigger] final(self).view()[i]
                    == old(self).view()[i],
            forall|i: int|
                old(self).view().len() <= i < final(self).view().len() && i != tag.id
                    ==> #[trigger] final(self).view()[i] is None,
    {
        self.accomodate(tag);
        self.set(tag, PostedDeduction { predicates, handle, marked: false });
    }

    /// The entry at `tag`; `None` where the stack has no room for `tag`.
    pub fn get(&self, tag: ConstraintTag) -> (r: Option<&Option<PostedDeduction>>)
        ensures
            tag.id < self.view().len() ==> r == Some(&self.view()[tag.id as int]),
            tag.id >= self.view().len() ==> r is None,
    {
        if (tag.id as usize) < self.entries.len() {
            Some(&self.entries[tag.id as usize])
        } else {
            None
        }
    }

    /// Removes and returns the entry of the highest tag.
    pub fn pop(&mut self) -> (r: Option<Option<PostedDeduction>>)
        ensures
            old(self).view().len() == 0 ==> r is None && final(self).view() == old(self).view(),
            old(self).view().len() > 0 ==> r == Some(old(self).view().last()) && final(self).view()
                == old(self).view().drop_last(),
    {
        self.entries.pop()
    }

    /// Marks the deduction at `tag`, if there is one.
    fn mark(&mut self, tag: ConstraintTag)
        requires
            tag.id < old(self).view().len(),
        ensures
            final(self).view() == old(self).view().update(
                tag.id as int,
                marked_entry(old(self).view()[tag.id as int]),
            ),
    {
        let i = tag.id as usize;
        let entry = self.entries.remove(i);
        let marked = match entry {
            Some(d) => Some(PostedDeduction { marked: true, ..d }),
            None => None,
        };
        self.entries.insert(i, marked);
        proof {
            assert(self.entries@ =~= old(self).view().update(
                tag.id as int,
                marked_entry(old(self).view()[tag.id as int]),
            ));
        }
    }
}

/// Marks the deduction of the constraint behind the inference as used.
pub fn mark_stack_entry(stack: &mut DeductionStack, inference_code: &InferenceCode)
    requires
        inference_code.tag.id < old(stack).view().len(),
    ensures
        final(stack).view() == old(stack).view().update(
            inference_code.tag.id as int,
            marked_entry(old(stack).view()[inference_code.tag.id as int]),
        ),
{
    stack.mark(inference_code.tag);
}

/// Marks the deduction whose propagation ended in the conflict: it is certainly used.
pub fn mark_conflicting_deduction(stack: &mut DeductionStack, tag: ConstraintTag)
    requires
        tag.id < old(stack).view().len(),
        old(stack).view()[tag.id as int] is Some,
    ensures
        final(stack).view() == old(stack).view().update(
            tag.id as int,
            marked_entry(old(stack).view()[tag.id as int]),
        ),
        final(stack).view()[tag.id as int]->0.marked,
{
    stack.mark(tag);
}

/// How the dual bound of a proof is justified.
#[derive(Clone, Copy, Debug, PartialEq, Eq, Structural)]
pub enum DualBoundJustification {
    /// The bound holds in the initial domain; its proof stage only needs the initial bound.
    InitialBound,
    /// A deduction of the proof propagates the bound; that deduction is marked.
    MarkedDeduction,
    /// The model's propagators alone propagate the bound, before any deduction.
    RootPropagation,
}

/// Decides how the dual bound conclusion is justified, given what the solver says of the
/// bound: whether it holds (`truth_value`), whether the initial domain implies it, and the
/// tag of the constraint whose propagation set it.
pub fn justify_dual_bound(
    stack: &mut DeductionStack,
    truth_value: Option<bool>,
    implied_by_initial_domain: bool,
    reason_tag: Option<ConstraintTag>,
) -> (r: Result<DualBoundJustification, ProofProcessError>)
    requires
        truth_value == Some(true) && !implied_by_initial_domain ==> reason_tag is Some,
    ensures
        truth_value != Some(true) ==> r == Err::<DualBoundJustification, ProofProcessError>(
            ProofProcessError::InvalidConclusion,
        ) && final(stack).view() == old(stack).view(),
        truth_value == Some(true) && implied_by_initial_domain ==> r == Ok::<
            DualBoundJustification,
            ProofProcessError,
        >(DualBoundJustification::InitialBound) && final(stack).view() == old(stack).view(),
        truth_value == Some(true) && !implied_by_initial_domain ==> ({
            let id = reason_tag->0.id as int;
            &&& id >= old(stack).view().len() ==> r == Err::<
                DualBoundJustification,
                ProofProcessError,
            >(ProofProcessError::InvalidConclusion) && final(stack).view() == old(stack).view()
            &&& id < old(stack).view().len() && old(stack).view()[id] is Some ==> r == Ok::<
                DualBoundJustification,
                ProofProcessError,
            >(DualBoundJustification::MarkedDeduction) && final(stack).view() == old(
                stack,
            ).view().update(id, marked_entry(old(stack).view()[id]))
            &&& id < old(stack).view().len() && old(stack).view()[id] is None ==> r == Ok::<
                DualBoundJustification,
                ProofProcessError,
            >(DualBoundJustification::RootPropagation) && final(stack).view() == old(stack).view()
        }),
{
    if truth_value != Some(true) {
        return Err(ProofProcessError::InvalidConclusion);
    }
    if implied_by_initial_domain {
        return Ok(DualBoundJustification::InitialBound);
    }
    let tag = match reason_tag {
        Some(t) => t,
        None => {
            return Err(ProofProcessError::InvalidConclusion);
        },
    };
    let used = match stack.get(tag) {
        Some(entry) => entry.is_some(),
        None => {
            return Err(ProofProcessError::InvalidConclusion);
        },
    };
    if used {
        stack.mark(tag);
        Ok(DualBoundJustification::MarkedDeduction)
    } else {
        Ok(DualBoundJustification::RootPropagation)
    }
}

/// Hands out constraint tags in increasing order, starting from `1`.
#[derive(Debug)]
pub struct ConstraintTagGenerator {
    next: u32,
}

impl ConstraintTagGenerator {
    /// The tag that is handed out next.
    pub closed spec fn next_id(self) -> u32 {
        self.next
    }

    pub fn new() -> (g: ConstraintTagGenerator)
        ensures
            g.next_id() == 1,
    {
        ConstraintTagGenerator { next: 1 }
    }

    /// A fresh tag.
    pub fn new_constraint_tag(&mut self) -> (tag: ConstraintTag)
        requires
            old(self).next_id() < u32::MAX,
        ensures
            tag.id == old(self).next_id(),
            final(self).next_id() == old(self).next_id() + 1,
    {
        let tag = ConstraintTag { id: self.next };
        self.next = self.next + 1;
        tag
    }

    /// Hands out tags until the tag `id` comes up, so that the tags of the processed proof
    /// match the constraint ids of the proof that is read.
    pub fn catch_up_to(&mut self, id: u32) -> (tag: ConstraintTag)
        requires
            old(self).next_id() <= id < u32::MAX,
        ensures
            tag.id == id,
            final(self).next_id() == id + 1,
    {
        let mut tag = self.new_constraint_tag();
        while tag.id < id
            invariant
                tag.id < id ==> self.next_id() == tag.id + 1,
                tag.id <= id,
                self.next_id() == tag.id + 1,
                id < u32::MAX,
            decreases id - tag.id,
        {
            tag = self.new_constraint_tag();
        }
        tag
    }
}

} // verus!
