//! The bookkeeping of proof processing: the variables of the model, the conversion between
//! solver predicates and proof atomics, the reading of a proof scaffold, the stack of
//! deductions, the justification of conflicts, and the order in which the processed proof is
//! written.
pub mod variables;
pub mod conversion;
pub mod scaffold;
pub mod stack;
pub mod conflicts;
pub mod output;
