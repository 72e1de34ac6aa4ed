//! The all-different constraint: no two variables take the same value.
pub mod checker;

pub use checker::AllDifferentChecker;
