use vstd::prelude::*;

use super::conversion::{
    all_defined,
    convert_proof_atomics_to_predicates,
    converted,
    first_undefined,
    ProofProcessError,
};
use super::output::{Conclusion, Step};
use super::stack::{ConstraintTagGenerator, DeductionStack};
use super::variables::Variables;
use crate::conflict_resolving::atomic::IntAtomic;
use crate::constraints::posting::ConstraintTag;
use crate::predicates::Predicate;

verus! {

/// What to do with a step of the proof scaffold while the solver is set up.
#[derive(Debug, Clone, PartialEq, Eq)]
pub enum ScaffoldAction {
    /// The step is an inference; the inferences of a scaffold are not used.
    Skip,
    /// Post the nogood of the deduction with this tag to the solver, then propagate.
    Post { tag: ConstraintTag, nogood: Vec<Predicate> },
    /// The scaffold concludes with this dual bound.
    DualBound(IntAtomic),
}

/// Reads a proof scaffold into the solver, one step at a time: the deductions posted so far
/// by tag, and the tags handed out so far.
#[derive(Debug)]
pub struct ScaffoldReader {
    pub stack: DeductionStack,
    pub tags: ConstraintTagGenerator,
}

impl ScaffoldReader {
    /// Nothing is read yet: the stack is empty and the first tag is `1`.
    pub fn new() -> (r: ScaffoldReader)
        ensures
            r.stack.view() == Seq::<Option<super::stack::PostedDeduction>>::empty(),
            r.tags.next_id() == 1,
    {
        ScaffoldReader { stack: DeductionStack::new(), tags: ConstraintTagGenerator::new() }
    }

    /// The model alone propagates to a conflict: the empty nogood, which is the whole proof,
    /// gets the next tag, and the stack gets room for it.
    pub fn root_conflict(&mut self) -> (tag: ConstraintTag)
        requires
            old(self).tags.next_id() < u32::MAX,
        ensures
            tag.id == old(self).tags.next_id(),
            final(self).tags.next_id() == tag.id + 1,
            final(self).stack.view().len() == if old(self).stack.view().len() > tag.id {
                old(self).stack.view().len() as int
            } else {
                tag.id + 1
            },
            forall|i: int|
                0 <= i < old(self).stack.view().len() ==> #[trigger] final(self).stack.view()[i]
                    == old(self).stack.view()[i],
            forall|i: int|
                old(self).stack.view().len() <= i < final(self).stack.view().len()
                    ==> #[trigger] final(self).stack.view()[i] is None,
    {
        let tag = self.tags.new_constraint_tag();
        self.stack.accomodate(tag);
        tag
    }

    /// Decides what the next step of the scaffold asks for; `None` is the end of the
    /// scaffold.
    ///
    /// A deduction takes the tag equal to its constraint id, so that the processed proof
    /// keeps the ids of the scaffold, and its premises become the nogood to post. A scaffold
    /// that ends without conclusion, or that concludes unsatisfiability although the
    /// deductions read so far do not propagate to a conflict, is refused.
    pub fn next_action(&mut self, variables: &Variables, step: Option<Step>) -> (r: Result<
        ScaffoldAction,
        ProofProcessError,
    >)
        requires
            variables.wf(),
            step matches Some(Step::Deduction(d)) ==> old(self).tags.next_id() <= d.constraint_id
                < u32::MAX,
        ensures
            match step {
                None => r == Err::<ScaffoldAction, ProofProcessError>(
                    ProofProcessError::MissingConclusion,
                ) && *final(self) == *old(self),
                Some(Step::Inference(_)) => r == Ok::<ScaffoldAction, ProofProcessError>(
                    ScaffoldAction::Skip,
                ) && *final(self) == *old(self),
                Some(Step::Conclusion(Conclusion::Unsat)) => r == Err::<
                    ScaffoldAction,
                    ProofProcessError,
                >(ProofProcessError::DeductionsDoNotConflict) && *final(self) == *old(self),
                Some(Step::Conclusion(Conclusion::DualBound(bound))) => r == Ok::<
                    ScaffoldAction,
                    ProofProcessError,
                >(ScaffoldAction::DualBound(bound)) && *final(self) == *old(self),
                Some(Step::Deduction(d)) => {
                    &&& final(self).tags.next_id() == d.constraint_id + 1
                    &&& final(self).stack == old(self).stack
                    &&& r is Ok <==> all_defined(*variables, d.premises@)
                    &&& r matches Ok(action) ==> (action matches ScaffoldAction::Post {
                        tag,
                        nogood,
                    } && tag.id == d.constraint_id && nogood@ == converted(
                        *variables,
                        d.premises@,
                    ))
                    &&& r matches Err(e) ==> exists|k: int|
                        #[trigger] first_undefined(*variables, d.premises@, k) && (e
                            matches ProofProcessError::UndefinedVariable(n) && n@
                            == d.premises@[k].name@)
                },
            },
    {
        let step = match step {
            None => {
                return Err(ProofProcessError::MissingConclusion);
            },
            Some(s) => s,
        };
        let deduction = match step {
            Step::Deduction(d) => d,
            Step::Conclusion(Conclusion::DualBound(bound)) => {
                return Ok(ScaffoldAction::DualBound(bound));
            },
            Step::Conclusion(Conclusion::Unsat) => {
                return Err(ProofProcessError::DeductionsDoNotConflict);
            },
            Step::Inference(_) => {
                return Ok(ScaffoldAction::Skip);
            },
        };
        let tag = self.tags.catch_up_to(deduction.constraint_id);
        let nogood = convert_proof_atomics_to_predicates(variables, &deduction.premises)?;
        Ok(ScaffoldAction::Post { tag, nogood })
    }
}

} // verus!
