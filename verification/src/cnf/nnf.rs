//! Negation normal form.
use crate::cnf::ast::{clone_terms, Formula, FormulaV};
use vstd::prelude::*;

verus! {

/// The negation normal form of the formula where `positive`, and of its
/// negation otherwise: implications and equivalences are written with
/// conjunction, disjunction and negation, and negations are moved inwards
/// until they stand before atoms.
pub open spec fn nnf_spec(f: FormulaV, positive: bool) -> FormulaV
    decreases f,
{
    match f {
        FormulaV::True => if positive { FormulaV::True } else { FormulaV::False },
        FormulaV::False => if positive { FormulaV::False } else { FormulaV::True },
        FormulaV::Predicate(_, _) => if positive { f } else { FormulaV::Not(Box::new(f)) },
        FormulaV::Not(p) => nnf_spec(*p, !positive),
        FormulaV::And(p, q) => if positive {
            FormulaV::And(Box::new(nnf_spec(*p, true)), Box::new(nnf_spec(*q, true)))
        } else {
            FormulaV::Or(Box::new(nnf_spec(*p, false)), Box::new(nnf_spec(*q, false)))
        },
        FormulaV::Or(p, q) => if positive {
            FormulaV::Or(Box::new(nnf_spec(*p, true)), Box::new(nnf_spec(*q, true)))
        } else {
            FormulaV::And(Box::new(nnf_spec(*p, false)), Box::new(nnf_spec(*q, false)))
        },
        FormulaV::Implies(p, q) => if positive {
            FormulaV::Or(Box::new(nnf_spec(*p, false)), Box::new(nnf_spec(*q, true)))
        } else {
            FormulaV::And(Box::new(nnf_spec(*p, true)), Box::new(nnf_spec(*q, false)))
        },
        FormulaV::Equivalent(p, q) => if positive {
            FormulaV::And(
                Box::new(
                    FormulaV::Or(Box::new(nnf_spec(*p, false)), Box::new(nnf_spec(*q, true))),
                ),
                Box::new(
                    FormulaV::Or(Box::new(nnf_spec(*q, false)), Box::new(nnf_spec(*p, true))),
                ),
            )
        } else {
            FormulaV::Or(
                Box::new(
                    FormulaV::And(Box::new(nnf_spec(*p, true)), Box::new(nnf_spec(*q, false))),
                ),
                Box::new(
                    FormulaV::And(Box::new(nnf_spec(*q, true)), Box::new(nnf_spec(*p, false))),
                ),
            )
        },
        FormulaV::Forall(x, p) => if positive {
            FormulaV::Forall(x, Box::new(nnf_spec(*p, true)))
        } else {
            FormulaV::Exists(x, Box::new(nnf_spec(*p, false)))
        },
        FormulaV::Exists(x, p) => if positive {
            FormulaV::Exists(x, Box::new(nnf_spec(*p, true)))
        } else {
            FormulaV::Forall(x, Box::new(nnf_spec(*p, false)))
        },
    }
}

/// The negation normal form of the formula where `positive`, and of its
/// negation otherwise.
pub fn nnf(f: &Formula, positive: bool) -> (r: Formula)
    ensures
        r@ == nnf_spec(f@, positive),
    decreases f,
{
    proof {
        reveal_with_fuel(crate::cnf::ast::formula_view, 3);
    }
    match f {
        Formula::True => if positive {
            Formula::True
        } else {
            Formula::False
        },
        Formula::False => if positive {
            Formula::False
        } else {
            Formula::True
        },
        Formula::Predicate(id, args) => {
            let atom = Formula::Predicate(*id, clone_terms(args));
            proof {
                assert(atom@ == f@);
            }
            if positive {
                atom
            } else {
                Formula::Not(Box::new(atom))
            }
        },
        Formula::Not(p) => nnf(p, !positive),
        Formula::And(p, q) => if positive {
            Formula::And(Box::new(nnf(p, true)), Box::new(nnf(q, true)))
        } else {
            Formula::Or(Box::new(nnf(p, false)), Box::new(nnf(q, false)))
        },
        Formula::Or(p, q) => if positive {
            Formula::Or(Box::new(nnf(p, true)), Box::new(nnf(q, true)))
        } else {
            Formula::And(Box::new(nnf(p, false)), Box::new(nnf(q, false)))
        },
        Formula::Implies(p, q) => if positive {
            Formula::Or(Box::new(nnf(p, false)), Box::new(nnf(q, true)))
        } else {
            Formula::And(Box::new(nnf(p, true)), Box::new(nnf(q, false)))
        },
        Formula::Equivalent(p, q) => if positive {
            Formula::And(
                Box::new(Formula::Or(Box::new(nnf(p, false)), Box::new(nnf(q, true)))),
                Box::new(Formula::Or(Box::new(nnf(q, false)), Box::new(nnf(p, true)))),
            )
        } else {
            Formula::Or(
                Box::new(Formula::And(Box::new(nnf(p, true)), Box::new(nnf(q, false)))),
                Box::new(Formula::And(Box::new(nnf(q, true)), Box::new(nnf(p, false)))),
            )
        },
        Formula::Forall(x, p) => if positive {
            Formula::Forall(*x, Box::new(nnf(p, true)))
        } else {
            Formula::Exists(*x, Box::new(nnf(p, false)))
        },
        Formula::Exists(x, p) => if positive {
            Formula::Exists(*x, Box::new(nnf(p, true)))
        } else {
            Formula::Forall(*x, Box::new(nnf(p, false)))
        },
    }
}

} // verus!
