use vstd::prelude::*;

use super::posting::{
    not_equal_decomposition,
    pairwise_postings,
    AllDifferentConstructor,
    ConstraintTag,
    Literal,
    Posting,
    Propagation,
};

verus! {

/// The constraint that all the given variables are distinct.
#[derive(Debug)]
pub struct AllDifferent<Var> {
    pub variables: Vec<Var>,
    pub constraint_tag: ConstraintTag,
    pub conflict_detection_only: bool,
    pub use_decomposition: bool,
}

/// Creates the constraint that enforces that all the given `variables` are distinct.
pub fn all_different<Var>(
    variables: Vec<Var>,
    constraint_tag: ConstraintTag,
    conflict_detection_only: bool,
    use_decomposition: bool,
) -> (c: AllDifferent<Var>)
    ensures
        c.variables@ == variables@,
        c.constraint_tag == constraint_tag,
        c.conflict_detection_only == conflict_detection_only,
        c.use_decomposition == use_decomposition,
{
    AllDifferent { variables, constraint_tag, conflict_detection_only, use_decomposition }
}

impl<Var: Copy> AllDifferent<Var> {
    /// The postings that enforce the constraint where the literal, if any, holds: a
    /// propagator for every pair of variables when decomposing, otherwise one all-different
    /// propagator.
    pub open spec fn postings_for(self, implied_by: Option<Literal>) -> Seq<Posting<Var>> {
        pairwise_postings(
            self.variables@,
            self.variables@.len() as int,
            self.constraint_tag,
            implied_by,
        )
    }

    fn postings(self, implied_by: Option<Literal>) -> (postings: Vec<Posting<Var>>)
        ensures
            self.use_decomposition ==> postings@ == self.postings_for(implied_by),
            !self.use_decomposition ==> postings@.len() == 1 && postings@[0].implied_by == implied_by
                && match postings@[0].propagation {
                Propagation::AllDifferent(c) => c.x@ == self.variables@ && c.constraint_tag
                    == self.constraint_tag && c.conflict_detection_only
                    == self.conflict_detection_only,
                _ => false,
            },
    {
        if self.use_decomposition {
            not_equal_decomposition(&self.variables, self.constraint_tag, implied_by)
        } else {
            let mut postings: Vec<Posting<Var>> = Vec::new();
            postings.push(
                Posting {
                    propagation: Propagation::AllDifferent(
                        AllDifferentConstructor {
                            x: self.variables,
                            constraint_tag: self.constraint_tag,
                            conflict_detection_only: self.conflict_detection_only,
                        },
                    ),
                    implied_by,
                },
            );
            postings
        }
    }

    /// The propagators that posting the constraint adds, in the order in which they are
    /// added: a not-equals propagator for every pair `i < j` when decomposing, otherwise one
    /// all-different propagator.
    pub fn post(self) -> (postings: Vec<Posting<Var>>)
        ensures
            self.use_decomposition ==> postings@ == self.postings_for(None),
            !self.use_decomposition ==> postings@.len() == 1 && postings@[0].implied_by is None
                && match postings@[0].propagation {
                Propagation::AllDifferent(c) => c.x@ == self.variables@ && c.constraint_tag
                    == self.constraint_tag && c.conflict_detection_only
                    == self.conflict_detection_only,
                _ => false,
            },
    {
        self.postings(None)
    }

    /// The propagators that enforce the constraint wherever `reification_literal` holds,
    /// in the order in which they are added.
    pub fn implied_by(self, reification_literal: Literal) -> (postings: Vec<Posting<Var>>)
        ensures
            self.use_decomposition ==> postings@ == self.postings_for(Some(reification_literal)),
            !self.use_decomposition ==> postings@.len() == 1 && postings@[0].implied_by == Some(
                reification_literal,
            ) && match postings@[0].propagation {
                Propagation::AllDifferent(c) => c.x@ == self.variables@ && c.constraint_tag
                    == self.constraint_tag && c.conflict_detection_only
                    == self.conflict_detection_only,
                _ => false,
            },
    {
        self.postings(Some(reification_literal))
    }
}

} // verus!
