//! The circuit constraint: the successor variables form one cycle through all nodes.
pub mod checker;
pub mod explanation;

pub use checker::CircuitChecker;
pub use explanation::CircuitExplanationType;
