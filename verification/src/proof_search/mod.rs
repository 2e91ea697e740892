//! The given-clause algorithm.
pub mod entailment;
pub mod saturation;
pub mod steps;
