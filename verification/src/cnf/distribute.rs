//! Distributing disjunctions over conjunctions.
use crate::cnf::ast::{Formula, FormulaV};
use vstd::prelude::*;

verus! {

/// The disjunction of two formulae in conjunctive normal form, in
/// conjunctive normal form: the disjunction is moved inside the conjunctions
/// of the first and then of the second.
pub open spec fn distribute_or_spec(a: FormulaV, b: FormulaV) -> FormulaV
    decreases a, b,
{
    match a {
        FormulaV::And(a1, a2) => FormulaV::And(
            Box::new(distribute_or_spec(*a1, b)),
            Box::new(distribute_or_spec(*a2, b)),
        ),
        _ => match b {
            FormulaV::And(b1, b2) => FormulaV::And(
                Box::new(distribute_or_spec(a, *b1)),
                Box::new(distribute_or_spec(a, *b2)),
            ),
            _ => FormulaV::Or(Box::new(a), Box::new(b)),
        },
    }
}

/// The formula with every disjunction moved inside the conjunctions.
pub open spec fn distribute_spec(f: FormulaV) -> FormulaV
    decreases f,
{
    match f {
        FormulaV::And(p, q) => FormulaV::And(
            Box::new(distribute_spec(*p)),
            Box::new(distribute_spec(*q)),
        ),
        FormulaV::Or(p, q) => distribute_or_spec(distribute_spec(*p), distribute_spec(*q)),
        _ => f,
    }
}

/// The disjunction of two formulae with the disjunction moved inside their conjunctions.
pub fn distribute_or(a: &Formula, b: &Formula) -> (r: Formula)
    ensures
        r@ == distribute_or_spec(a@, b@),
    decreases a, b,
{
    match a {
        Formula::And(a1, a2) => Formula::And(
            Box::new(distribute_or(a1, b)),
            Box::new(distribute_or(a2, b)),
        ),
        _ => match b {
            Formula::And(b1, b2) => Formula::And(
                Box::new(distribute_or(a, b1)),
                Box::new(distribute_or(a, b2)),
            ),
            _ => Formula::Or(Box::new(a.clone()), Box::new(b.clone())),
        },
    }
}

/// Moves every disjunction of the formula inside the conjunctions.
pub fn distribute(f: Formula) -> (r: Formula)
    ensures
        r@ == distribute_spec(f@),
    decreases f,
{
    match f {
        Formula::And(p, q) => Formula::And(Box::new(distribute(*p)), Box::new(distribute(*q))),
        Formula::Or(p, q) => {
            let left = distribute(*p);
            let right = distribute(*q);
            distribute_or(&left, &right)
        },
        _ => f,
    }
}

} // verus!
