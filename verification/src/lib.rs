//! A saturation-based theorem prover for first-order logic with equality.
pub mod binary_resolution;
pub mod clause;
pub mod clause_selection;
pub mod cnf;
pub mod factoring;
pub mod flatten_cnf;
pub mod inference;
pub mod literal;
pub mod matching;
pub mod ordering;
pub mod parser;
pub mod pd_tree;
pub mod position;
pub mod problem;
pub mod proof_result;
pub mod proof_search;
pub mod proof_statistics;
pub mod renaming;
pub mod resolution;
pub mod semantics;
pub mod simplification;
pub mod substitution;
pub mod term;
pub mod tptp_parser;
pub mod unification;
