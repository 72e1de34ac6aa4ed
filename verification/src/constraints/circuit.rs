use vstd::prelude::*;

use super::all_different::all_different;
use super::posting::{
    copy_variables,
    pairwise_postings,
    CircuitConstructor,
    ConstraintTag,
    Posting,
    Propagation,
};
use crate::propagators::circuit::explanation::CircuitExplanationType;

verus! {

/// The constraint that the successor variables form one cycle through all nodes.
#[derive(Debug)]
pub struct Circuit<Var> {
    pub variables: Vec<Var>,
    pub constraint_tag: ConstraintTag,
    pub conflict_detection_only: bool,
    pub explanation_type: CircuitExplanationType,
}

/// Creates the constraint that enforces that the `variables`, read as successors, form one
/// cycle through all nodes.
pub fn circuit<Var>(
    variables: Vec<Var>,
    constraint_tag: ConstraintTag,
    conflict_detection_only: bool,
    explanation_type: CircuitExplanationType,
) -> (c: Circuit<Var>)
    ensures
        c.variables@ == variables@,
        c.constraint_tag == constraint_tag,
        c.conflict_detection_only == conflict_detection_only,
        c.explanation_type == explanation_type,
{
    Circuit { variables, constraint_tag, conflict_detection_only, explanation_type }
}

impl<Var: Copy> Circuit<Var> {
    /// The propagators that posting the constraint adds, in order: the successors are
    /// distinct, decomposed into a not-equals propagator for every pair, and then the circuit
    /// propagator itself.
    pub fn post(self) -> (postings: Vec<Posting<Var>>)
        ensures
            postings@.drop_last() == pairwise_postings(
                self.variables@,
                self.variables@.len() as int,
                self.constraint_tag,
                None,
            ),
            postings@.len() >= 1,
            postings@.last().implied_by is None,
            match postings@.last().propagation {
                Propagation::Circuit(c) => c.successors@ == self.variables@ && c.constraint_tag
                    == self.constraint_tag && c.conflict_detection_only
                    == self.conflict_detection_only && c.explanation_type == self.explanation_type,
                _ => false,
            },
    {
        let distinct = all_different(copy_variables(&self.variables), self.constraint_tag, false, true);
        let mut postings = distinct.post();
        let ghost pairs = postings@;
        postings.push(
            Posting {
                propagation: Propagation::Circuit(
                    CircuitConstructor {
                        successors: self.variables,
                        constraint_tag: self.constraint_tag,
                        conflict_detection_only: self.conflict_detection_only,
                        explanation_type: self.explanation_type,
                    },
                ),
                implied_by: None,
            },
        );
        proof {
            assert(postings@.drop_last() =~= pairs);
        }
        postings
    }
}

} // verus!
