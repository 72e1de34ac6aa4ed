use vstd::prelude::*;

verus! {

/// The explanation used for explaining circuit propagations and conflicts.
#[derive(Debug, Clone, Copy, PartialEq, Eq, Hash, Structural)]
pub enum CircuitExplanationType {
    /// Explanation using only equality predicates.
    Direct,
    /// Explanation using only disequality predicates.
    Indirect,
}

impl Default for CircuitExplanationType {
    /// Explanations use equality predicates unless asked otherwise.
    fn default() -> (r: Self)
        ensures
            r == CircuitExplanationType::Direct,
    {
        CircuitExplanationType::Direct
    }
}

} // verus!
