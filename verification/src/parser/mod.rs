//! Reading formulae from text.
pub mod grammar;
pub mod internal_parser;
