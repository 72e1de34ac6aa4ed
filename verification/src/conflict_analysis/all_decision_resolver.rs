use vstd::prelude::*;

verus! {

/// Resolves conflicts according to the all-decision learning approach: the nogood that is
/// learned from a conflict consists of the decisions that the conflict depends on.
#[derive(Clone, Debug)]
pub struct AllDecisionResolver;

impl AllDecisionResolver {
    pub fn new() -> (resolver: AllDecisionResolver) {
        AllDecisionResolver {  }
    }
}

} // verus!
