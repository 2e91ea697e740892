//! Reading problems in the TPTP language.
pub mod ast;
pub mod grammar;
pub mod includes;
pub mod parser;
pub mod preprocess;
pub mod text;
