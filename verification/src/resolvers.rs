//! The conflict resolvers.
pub use crate::conflict_analysis::all_decision_resolver::AllDecisionResolver;
pub use crate::conflict_analysis::deduction_checker::DeductionCheckerImpl;
