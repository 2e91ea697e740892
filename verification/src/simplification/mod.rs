//! Redundancy: deleting tautologies, resolved and repeated literals,
//! literals that unit clauses contradict and subsumed clauses, and
//! rewriting by unit equations.
pub mod feature_vector;
pub mod literal_deletion;
pub mod rewriting;
pub mod simplify_reflect;
pub mod subsumption;
pub mod tautology_deletion;
