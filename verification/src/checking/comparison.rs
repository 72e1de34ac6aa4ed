use vstd::prelude::*;

verus! {

/// The comparison of an atomic constraint `[name <comparison> value]`.
#[derive(Clone, Copy, Debug, PartialEq, Eq, PartialOrd, Ord, Hash, Structural)]
pub enum Comparison {
    GreaterEqual,
    LessEqual,
    Equal,
    NotEqual,
}

/// Whether `v <comparison> k` holds.
pub open spec fn comparison_holds(comparison: Comparison, v: int, k: int) -> bool {
    match comparison {
        Comparison::GreaterEqual => v >= k,
        Comparison::LessEqual => v <= k,
        Comparison::Equal => v == k,
        Comparison::NotEqual => v != k,
    }
}

} // verus!
