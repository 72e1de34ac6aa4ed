//! The constraints whose inferences the library checks: circuit and all-different.
pub mod all_different;
pub mod circuit;
