//! Belief propagation in legs that alternate between all checks and those still unsatisfied.

pub mod dynamic;
pub mod langevin;
pub mod legs;
