//! Conflict analysis: deduction checking, nogood minimisation and conflict resolution.
pub mod all_decision_resolver;
pub mod deduction_checker;
pub mod semantic_minimiser;

pub use all_decision_resolver::AllDecisionResolver;
pub use deduction_checker::DeductionCheckerImpl;
pub use semantic_minimiser::SemanticMinimiser;
