//! The inference rules: equality resolution, equality factoring and superposition.
pub mod equality_factoring;
pub mod equality_resolution;
pub mod maximality;
pub mod superposition;
