//! Formulae and their transformation to clause normal form.
pub mod ast;
pub mod distribute;
pub mod drop_universal_quantifiers;
pub mod naive_cnf;
pub mod nnf;
pub mod renaming_info;
pub mod skolemization;
pub mod variable_renaming;
