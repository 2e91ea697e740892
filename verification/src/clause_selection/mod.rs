//! Clause selection: the weights of clauses and the set of passive clauses.
pub mod clause_weight;
pub mod passive;
