//! Constraints and the propagators that posting them creates.
pub mod all_different;
pub mod circuit;
pub mod posting;
