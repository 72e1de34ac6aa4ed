//! Verified building blocks of a lazy clause generation constraint solver: domains and atomic
//! constraints, deduction checking, semantic nogood minimisation, inference checkers for the
//! circuit and all-different constraints, the posting of those constraints, and the
//! bookkeeping of proof processing.
pub mod checking;
pub mod conflict_analysis;
pub mod conflict_resolving;
pub mod constraints;
pub mod predicates;
pub mod proof_processing;
pub mod propagators;
pub mod resolvers;
pub mod seq_facts;
