//! The outcome of a proof attempt.
use vstd::prelude::*;

verus! {

/// The outcome of a proof attempt.
#[derive(Debug, PartialEq, Eq)]
pub enum ProofResult {
    /// The empty clause was derived: the conjecture follows from the axioms.
    Theorem,
    /// The clauses were saturated without the empty clause.
    CounterSatisfiable,
    /// The time ran out.
    Timeout,
    /// The search stopped without an answer.
    GaveUp,
    /// The problem could not be read; the message says why.
    Error(String),
}

impl ProofResult {
    /// Whether a proof was found.
    pub fn is_successful(&self) -> (r: bool)
        ensures
            r == (self is Theorem),
    {
        match self {
            ProofResult::Theorem => true,
            _ => false,
        }
    }

    /// Whether the problem could not be read.
    pub fn is_err(&self) -> (r: bool)
        ensures
            r == (self is Error),
    {
        match self {
            ProofResult::Error(_) => true,
            _ => false,
        }
    }

    /// The word that stands for the outcome in a status line.
    pub fn display_type(&self) -> (s: &'static str)
        ensures
            s@ == match self {
                ProofResult::Theorem => "Theorem"@,
                ProofResult::CounterSatisfiable => "CounterSatisfiable"@,
                ProofResult::Timeout => "Timeout"@,
                ProofResult::GaveUp => "GaveUp"@,
                ProofResult::Error(_) => "Error"@,
            },
    {
        match self {
            ProofResult::Theorem => "Theorem",
            ProofResult::CounterSatisfiable => "CounterSatisfiable",
            ProofResult::Timeout => "Timeout",
            ProofResult::GaveUp => "GaveUp",
            ProofResult::Error(_) => "Error",
        }
    }
}

} // verus!
