//! Atomic constraints, the inferences that support a deduction, and the interfaces of
//! deduction checkers and nogood minimisers.
pub mod atomic;
pub mod deduction;
pub mod nogood_minimiser;

pub use atomic::{Atomic, IntAtomic};
pub use deduction::{DeductionChecker, SupportingInference};
pub use nogood_minimiser::NogoodMinimiser;
