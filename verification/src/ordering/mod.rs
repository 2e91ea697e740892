//! Term orderings: the lexicographic path ordering and the Knuth-Bendix ordering.
pub mod kbo;
pub mod kbo_stability;
pub mod lpo;
pub mod precedence;
pub mod term_ordering;
pub mod weight;
