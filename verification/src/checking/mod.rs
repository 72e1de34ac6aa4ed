//! Domains of integer variables as they are tracked while checking inferences and deductions.
pub mod comparison;
pub mod domain;
pub mod variable_state;
pub mod inference;
