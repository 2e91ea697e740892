//! Dropping the universal quantifiers of a formula in prenex form.
use crate::cnf::ast::{Formula, FormulaV};
use vstd::prelude::*;

verus! {

/// The formula without the universal quantifiers in front of it.
pub open spec fn drop_leading_spec(f: FormulaV) -> FormulaV
    decreases f,
{
    match f {
        FormulaV::Forall(_, p) => drop_leading_spec(*p),
        _ => f,
    }
}

/// Whether a universal quantifier stands at the top of the formula or of a
/// part of a conjunction or disjunction.
pub open spec fn contains_universal_spec(f: FormulaV) -> bool
    decreases f,
{
    match f {
        FormulaV::And(p, q) | FormulaV::Or(p, q) => contains_universal_spec(*p)
            || contains_universal_spec(*q),
        FormulaV::Forall(_, _) => true,
        _ => false,
    }
}

/// The formula without any of its universal quantifiers.
pub open spec fn strip_spec(f: FormulaV) -> FormulaV
    decreases f,
{
    match f {
        FormulaV::Not(p) => FormulaV::Not(Box::new(strip_spec(*p))),
        FormulaV::And(p, q) => FormulaV::And(Box::new(strip_spec(*p)), Box::new(strip_spec(*q))),
        FormulaV::Or(p, q) => FormulaV::Or(Box::new(strip_spec(*p)), Box::new(strip_spec(*q))),
        FormulaV::Implies(p, q) => FormulaV::Implies(
            Box::new(strip_spec(*p)),
            Box::new(strip_spec(*q)),
        ),
        FormulaV::Equivalent(p, q) => FormulaV::Equivalent(
            Box::new(strip_spec(*p)),
            Box::new(strip_spec(*q)),
        ),
        FormulaV::Forall(_, p) => strip_spec(*p),
        FormulaV::Exists(x, p) => FormulaV::Exists(x, Box::new(strip_spec(*p))),
        _ => f,
    }
}

/// The universally bound variables of a formula, from left to right.
pub open spec fn universal_variables(f: FormulaV) -> Seq<int>
    decreases f,
{
    match f {
        FormulaV::Not(p) => universal_variables(*p),
        FormulaV::And(p, q) | FormulaV::Or(p, q) | FormulaV::Implies(p, q) | FormulaV::Equivalent(
            p,
            q,
        ) => universal_variables(*p) + universal_variables(*q),
        FormulaV::Forall(x, p) => seq![x] + universal_variables(*p),
        FormulaV::Exists(_, p) => universal_variables(*p),
        _ => Seq::empty(),
    }
}

/// The formula `f` with universal quantifiers for the variables `xs` in front.
pub open spec fn quantify(xs: Seq<int>, f: FormulaV) -> FormulaV
    decreases xs.len(),
{
    if xs.len() == 0 {
        f
    } else {
        FormulaV::Forall(xs[0], Box::new(quantify(xs.drop_first(), f)))
    }
}

/// The prenex form of a formula whose bound variables are all different:
/// its universal quantifiers, from left to right, in front of what is left
/// without them.
pub open spec fn prenex_spec(f: FormulaV) -> FormulaV {
    quantify(universal_variables(f), strip_spec(f))
}

/// Dropping the leading quantifiers of a prenex form leaves the formula
/// without its universal quantifiers, where that does not begin with one.
pub proof fn lemma_drop_quantified(xs: Seq<int>, f: FormulaV)
    requires
        !(f is Forall),
    ensures
        drop_leading_spec(quantify(xs, f)) == f,
    decreases xs.len(),
{
    if xs.len() > 0 {
        lemma_drop_quantified(xs.drop_first(), f);
    }
}

/// Drops the universal quantifiers in front of a formula. No universal
/// quantifier may be left at the top of what remains or of a part of a
/// conjunction or disjunction of it.
pub fn drop_universal_quantifiers(f: Formula) -> (r: Formula)
    requires
        !contains_universal_spec(drop_leading_spec(f@)),
    ensures
        r@ == drop_leading_spec(f@),
{
    drop_universal_quantifiers0(f)
}

/// Drops the universal quantifiers in front of a formula.
pub fn drop_universal_quantifiers0(f: Formula) -> (r: Formula)
    ensures
        r@ == drop_leading_spec(f@),
    decreases f,
{
    match f {
        Formula::Forall(_, p) => drop_universal_quantifiers0(*p),
        _ => f,
    }
}

/// Checks whether a universal quantifier stands at the top of the formula or
/// of a part of a conjunction or disjunction.
pub fn contains_universal_quantifiers(f: &Formula) -> (r: bool)
    ensures
        r == contains_universal_spec(f@),
    decreases f,
{
    match f {
        Formula::And(p, q) | Formula::Or(p, q) => contains_universal_quantifiers(p)
            || contains_universal_quantifiers(q),
        Formula::Forall(_, _) => true,
        _ => false,
    }
}

/// Removes every universal quantifier of the formula and adds the variables
/// that they bind to `variables`, from left to right.
pub fn strip_universal_quantifiers(f: Formula, variables: &mut Vec<i64>) -> (r: Formula)
    ensures
        r@ == strip_spec(f@),
        crate::cnf::skolemization::ids_view(final(variables)@) == crate::cnf::skolemization::ids_view(
            old(variables)@,
        ) + universal_variables(f@),
    decreases f,
{
    let ghost before = crate::cnf::skolemization::ids_view(variables@);
    match f {
        Formula::Not(p) => Formula::Not(Box::new(strip_universal_quantifiers(*p, variables))),
        Formula::And(p, q) => {
            let left = strip_universal_quantifiers(*p, variables);
            let right = strip_universal_quantifiers(*q, variables);
            proof {
                assert(crate::cnf::skolemization::ids_view(variables@) =~= before
                    + universal_variables(f@));
            }
            Formula::And(Box::new(left), Box::new(right))
        },
        Formula::Or(p, q) => {
            let left = strip_universal_quantifiers(*p, variables);
            let right = strip_universal_quantifiers(*q, variables);
            proof {
                assert(crate::cnf::skolemization::ids_view(variables@) =~= before
                    + universal_variables(f@));
            }
            Formula::Or(Box::new(left), Box::new(right))
        },
        Formula::Implies(p, q) => {
            let left = strip_universal_quantifiers(*p, variables);
            let right = strip_universal_quantifiers(*q, variables);
            proof {
                assert(crate::cnf::skolemization::ids_view(variables@) =~= before
                    + universal_variables(f@));
            }
            Formula::Implies(Box::new(left), Box::new(right))
        },
        Formula::Equivalent(p, q) => {
            let left = strip_universal_quantifiers(*p, variables);
            let right = strip_universal_quantifiers(*q, variables);
            proof {
                assert(crate::cnf::skolemization::ids_view(variables@) =~= before
                    + universal_variables(f@));
            }
            Formula::Equivalent(Box::new(left), Box::new(right))
        },
        Formula::Forall(x, p) => {
            variables.push(x);
            proof {
                assert(crate::cnf::skolemization::ids_view(variables@) =~= before + seq![x as int]);
            }
            let r = strip_universal_quantifiers(*p, variables);
            proof {
                assert(crate::cnf::skolemization::ids_view(variables@) =~= before
                    + universal_variables(f@));
            }
            r
        },
        Formula::Exists(x, p) => Formula::Exists(
            x,
            Box::new(strip_universal_quantifiers(*p, variables)),
        ),
        _ => {
            proof {
                assert(crate::cnf::skolemization::ids_view(variables@) =~= before
                    + universal_variables(f@));
            }
            f
        },
    }
}

/// The prenex form of a formula whose bound variables are all different.
pub fn prenex(f: Formula) -> (r: Formula)
    ensures
        r@ == prenex_spec(f@),
{
    let mut variables: Vec<i64> = Vec::new();
    let mut r = strip_universal_quantifiers(f, &mut variables);
    let ghost matrix = r@;
    let ghost xs = crate::cnf::skolemization::ids_view(variables@);
    proof {
        assert(xs =~= universal_variables(f@));
        assert(xs.skip(xs.len() as int) =~= Seq::<int>::empty());
    }
    while variables.len() > 0
        invariant
            variables@.len() <= xs.len(),
            crate::cnf::skolemization::ids_view(variables@) =~= xs.take(variables@.len() as int),
            r@ == quantify(xs.skip(variables@.len() as int), matrix),
        decreases variables.len(),
    {
        let ghost k = variables@.len() - 1;
        let ghost vs = variables@;
        let x = variables.pop().unwrap();
        proof {
            assert(crate::cnf::skolemization::ids_view(vs)[k] == xs.take(k + 1)[k]);
            assert(xs.skip(k).drop_first() =~= xs.skip(k + 1));
            assert(crate::cnf::skolemization::ids_view(variables@) =~= xs.take(k));
        }
        r = Formula::Forall(x, Box::new(r));
    }
    proof {
        assert(xs.skip(0) =~= xs);
    }
    r
}

} // verus!
