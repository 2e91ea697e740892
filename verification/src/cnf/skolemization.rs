//! Skolemization: replacing existentially bound variables by new function symbols.
use crate::cnf::ast::{lemma_function_view, views, Formula, FormulaV, Term};
use crate::cnf::renaming_info::RenamingInfo;
use crate::term::TermV;
use vstd::prelude::*;

verus! {

/// The terms with the variable `x` replaced by `t`.
pub open spec fn substitute_in_terms(ts: Seq<TermV>, x: int, t: TermV) -> Seq<TermV> {
    Seq::new(ts.len(), |i: int| ts[i].replace(x, t))
}

/// The formula with the variable `x` replaced by `t` wherever it occurs in an atom.
pub open spec fn substitute_spec(f: FormulaV, x: int, t: TermV) -> FormulaV
    decreases f,
{
    match f {
        FormulaV::Predicate(id, terms) => FormulaV::Predicate(id, substitute_in_terms(terms, x, t)),
        FormulaV::Not(p) => FormulaV::Not(Box::new(substitute_spec(*p, x, t))),
        FormulaV::And(p, q) => FormulaV::And(
            Box::new(substitute_spec(*p, x, t)),
            Box::new(substitute_spec(*q, x, t)),
        ),
        FormulaV::Or(p, q) => FormulaV::Or(
            Box::new(substitute_spec(*p, x, t)),
            Box::new(substitute_spec(*q, x, t)),
        ),
        FormulaV::Implies(p, q) => FormulaV::Implies(
            Box::new(substitute_spec(*p, x, t)),
            Box::new(substitute_spec(*q, x, t)),
        ),
        FormulaV::Equivalent(p, q) => FormulaV::Equivalent(
            Box::new(substitute_spec(*p, x, t)),
            Box::new(substitute_spec(*q, x, t)),
        ),
        FormulaV::Forall(id, p) => FormulaV::Forall(id, Box::new(substitute_spec(*p, x, t))),
        FormulaV::Exists(id, p) => FormulaV::Exists(id, Box::new(substitute_spec(*p, x, t))),
        _ => f,
    }
}

/// Substitution does not change the size of a formula.
pub proof fn lemma_substitute_size(f: FormulaV, x: int, t: TermV)
    ensures
        substitute_spec(f, x, t).size() == f.size(),
        existentials(substitute_spec(f, x, t)) == existentials(f),
    decreases f,
{
    match f {
        FormulaV::Not(p) => lemma_substitute_size(*p, x, t),
        FormulaV::And(p, q) | FormulaV::Or(p, q) | FormulaV::Implies(p, q) | FormulaV::Equivalent(
            p,
            q,
        ) => {
            lemma_substitute_size(*p, x, t);
            lemma_substitute_size(*q, x, t);
        },
        FormulaV::Forall(_, p) | FormulaV::Exists(_, p) => lemma_substitute_size(*p, x, t),
        _ => {},
    }
}

/// The number of existential quantifiers of a formula.
pub open spec fn existentials(f: FormulaV) -> nat
    decreases f,
{
    match f {
        FormulaV::Not(p) => existentials(*p),
        FormulaV::And(p, q) | FormulaV::Or(p, q) | FormulaV::Implies(p, q) | FormulaV::Equivalent(
            p,
            q,
        ) => existentials(*p) + existentials(*q),
        FormulaV::Forall(_, p) => existentials(*p),
        FormulaV::Exists(_, p) => 1 + existentials(*p),
        _ => 0,
    }
}

/// The variables as terms.
pub open spec fn variable_terms(xs: Seq<int>) -> Seq<TermV> {
    Seq::new(xs.len(), |i: int| TermV::Var(xs[i]))
}

/// The formula without existential quantifiers: each existentially bound
/// variable is replaced by a new function symbol, the next after
/// `fun_cnt`, applied to the universally bound variables around it, of which
/// `universals` are the outer ones. The second component is the last
/// function symbol used.
pub open spec fn skolemize_spec(f: FormulaV, universals: Seq<int>, fun_cnt: int) -> (FormulaV, int)
    decreases f.size(),
    via skolemize_spec_decreases
{
    match f {
        FormulaV::Not(p) => {
            let (left, c) = skolemize_spec(*p, universals, fun_cnt);
            (FormulaV::Not(Box::new(left)), c)
        },
        FormulaV::And(p, q) => {
            let (left, c) = skolemize_spec(*p, universals, fun_cnt);
            let (right, c2) = skolemize_spec(*q, universals, c);
            (FormulaV::And(Box::new(left), Box::new(right)), c2)
        },
        FormulaV::Or(p, q) => {
            let (left, c) = skolemize_spec(*p, universals, fun_cnt);
            let (right, c2) = skolemize_spec(*q, universals, c);
            (FormulaV::Or(Box::new(left), Box::new(right)), c2)
        },
        FormulaV::Implies(p, q) => {
            let (left, c) = skolemize_spec(*p, universals, fun_cnt);
            let (right, c2) = skolemize_spec(*q, universals, c);
            (FormulaV::Implies(Box::new(left), Box::new(right)), c2)
        },
        FormulaV::Equivalent(p, q) => {
            let (left, c) = skolemize_spec(*p, universals, fun_cnt);
            let (right, c2) = skolemize_spec(*q, universals, c);
            (FormulaV::Equivalent(Box::new(left), Box::new(right)), c2)
        },
        FormulaV::Forall(x, p) => {
            let (left, c) = skolemize_spec(*p, universals.push(x), fun_cnt);
            (FormulaV::Forall(x, Box::new(left)), c)
        },
        FormulaV::Exists(x, p) => skolemize_spec(
            substitute_spec(*p, x, TermV::Fun(fun_cnt + 1, false, variable_terms(universals))),
            universals,
            fun_cnt + 1,
        ),
        _ => (f, fun_cnt),
    }
}

#[via_fn]
proof fn skolemize_spec_decreases(f: FormulaV, universals: Seq<int>, fun_cnt: int) {
    match f {
        FormulaV::Exists(x, p) => {
            lemma_substitute_size(
                *p,
                x,
                TermV::Fun(fun_cnt + 1, false, variable_terms(universals)),
            );
        },
        _ => {},
    }
}

/// Skolemization uses as many function symbols as the formula has
/// existential quantifiers.
pub proof fn lemma_skolemize_count(f: FormulaV, universals: Seq<int>, fun_cnt: int)
    ensures
        skolemize_spec(f, universals, fun_cnt).1 == fun_cnt + existentials(f),
    decreases f.size(),
{
    match f {
        FormulaV::Not(p) => lemma_skolemize_count(*p, universals, fun_cnt),
        FormulaV::And(p, q) | FormulaV::Or(p, q) | FormulaV::Implies(p, q) | FormulaV::Equivalent(
            p,
            q,
        ) => {
            lemma_skolemize_count(*p, universals, fun_cnt);
            lemma_skolemize_count(*q, universals, skolemize_spec(*p, universals, fun_cnt).1);
        },
        FormulaV::Forall(x, p) => lemma_skolemize_count(*p, universals.push(x), fun_cnt),
        FormulaV::Exists(x, p) => {
            let t = TermV::Fun(fun_cnt + 1, false, variable_terms(universals));
            lemma_substitute_size(*p, x, t);
            lemma_skolemize_count(substitute_spec(*p, x, t), universals, fun_cnt + 1);
        },
        _ => {},
    }
}

/// Replaces the variable `x` by `t` in each of the terms.
fn substitute_in_term_list(terms: &Vec<Term>, x: i64, t: &Term) -> (out: Vec<Term>)
    ensures
        views(out@) == substitute_in_terms(views(terms@), x as int, t@),
    decreases terms,
{
    let mut out: Vec<Term> = Vec::new();
    let n = terms.len();
    let mut i: usize = 0;
    while i < n
        invariant
            0 <= i <= n,
            n == terms.len(),
            out.len() == i,
            forall|j: int| 0 <= j < i ==> out[j]@ == terms[j]@.replace(x as int, t@),
        decreases n - i,
    {
        out.push(substitute_in_term(&terms[i], x, t));
        i += 1;
    }
    proof {
        assert(views(out@) =~= substitute_in_terms(views(terms@), x as int, t@));
    }
    out
}

/// Replaces the variable `x` by `t` in a term.
pub fn substitute_in_term(u: &Term, x: i64, t: &Term) -> (r: Term)
    ensures
        r@ == u@.replace(x as int, t@),
    decreases u,
{
    match u {
        Term::Variable(id) => {
            if x == *id {
                t.clone()
            } else {
                Term::Variable(*id)
            }
        },
        Term::Function(id, args) => {
            let out = substitute_in_term_list(args, x, t);
            proof {
                lemma_function_view(*id, out);
                lemma_function_view(*id, *args);
                assert(views(out@) =~= u@.replace(x as int, t@).args());
            }
            Term::Function(*id, out)
        },
    }
}

/// Replaces the variable `x` by `t` wherever it occurs in an atom of the formula.
pub fn substitute(f: Formula, x: i64, t: &Term) -> (r: Formula)
    ensures
        r@ == substitute_spec(f@, x as int, t@),
    decreases f,
{
    match f {
        Formula::Predicate(id, terms) => Formula::Predicate(
            id,
            substitute_in_term_list(&terms, x, t),
        ),
        Formula::Not(p) => Formula::Not(Box::new(substitute(*p, x, t))),
        Formula::And(p, q) => Formula::And(
            Box::new(substitute(*p, x, t)),
            Box::new(substitute(*q, x, t)),
        ),
        Formula::Or(p, q) => Formula::Or(
            Box::new(substitute(*p, x, t)),
            Box::new(substitute(*q, x, t)),
        ),
        Formula::Implies(p, q) => Formula::Implies(
            Box::new(substitute(*p, x, t)),
            Box::new(substitute(*q, x, t)),
        ),
        Formula::Equivalent(p, q) => Formula::Equivalent(
            Box::new(substitute(*p, x, t)),
            Box::new(substitute(*q, x, t)),
        ),
        Formula::Forall(id, p) => Formula::Forall(id, Box::new(substitute(*p, x, t))),
        Formula::Exists(id, p) => Formula::Exists(id, Box::new(substitute(*p, x, t))),
        _ => f,
    }
}

/// The views of the variables.
pub open spec fn ids_view(xs: Seq<i64>) -> Seq<int> {
    Seq::new(xs.len(), |i: int| xs[i] as int)
}

/// Replaces each existentially bound variable of the formula by a new
/// function symbol applied to the universally bound variables around it.
/// The counter must have a function symbol left for each existential quantifier.
pub fn skolemize(f: Formula, universals: &mut Vec<i64>, ri: &mut RenamingInfo) -> (r: Formula)
    requires
        old(ri).fun_cnt + existentials(f@) <= i64::MAX,
    ensures
        r@ == skolemize_spec(f@, ids_view(old(universals)@), old(ri).fun_cnt as int).0,
        final(ri).fun_cnt == old(ri).fun_cnt + existentials(f@),
        final(ri).var_cnt == old(ri).var_cnt,
        final(universals)@ == old(universals)@,
    decreases f@.size(),
{
    let ghost us = ids_view(universals@);
    proof {
        lemma_skolemize_count(f@, us, ri.fun_cnt as int);
    }
    match f {
        Formula::Not(p) => Formula::Not(Box::new(skolemize(*p, universals, ri))),
        Formula::And(p, q) => {
            proof {
                lemma_skolemize_count(p@, us, ri.fun_cnt as int);
            }
            let left = skolemize(*p, universals, ri);
            let right = skolemize(*q, universals, ri);
            Formula::And(Box::new(left), Box::new(right))
        },
        Formula::Or(p, q) => {
            proof {
                lemma_skolemize_count(p@, us, ri.fun_cnt as int);
            }
            let left = skolemize(*p, universals, ri);
            let right = skolemize(*q, universals, ri);
            Formula::Or(Box::new(left), Box::new(right))
        },
        Formula::Implies(p, q) => {
            proof {
                lemma_skolemize_count(p@, us, ri.fun_cnt as int);
            }
            let left = skolemize(*p, universals, ri);
            let right = skolemize(*q, universals, ri);
            Formula::Implies(Box::new(left), Box::new(right))
        },
        Formula::Equivalent(p, q) => {
            proof {
                lemma_skolemize_count(p@, us, ri.fun_cnt as int);
            }
            let left = skolemize(*p, universals, ri);
            let right = skolemize(*q, universals, ri);
            Formula::Equivalent(Box::new(left), Box::new(right))
        },
        Formula::Forall(x, p) => {
            universals.push(x);
            proof {
                assert(ids_view(universals@) =~= us.push(x as int));
            }
            let left = skolemize(*p, universals, ri);
            universals.pop();
            proof {
                assert(universals@ =~= old(universals)@);
            }
            Formula::Forall(x, Box::new(left))
        },
        Formula::Exists(x, p) => {
            let id = ri.create_new_function_id();
            let mut args: Vec<Term> = Vec::new();
            let n = universals.len();
            let mut i: usize = 0;
            while i < n
                invariant
                    0 <= i <= n,
                    n == universals.len(),
                    args.len() == i,
                    forall|j: int| 0 <= j < i ==> args[j]@ == TermV::Var(universals[j] as int),
                decreases n - i,
            {
                args.push(Term::Variable(universals[i]));
                i += 1;
            }
            let t = Term::Function(id, args);
            proof {
                lemma_function_view(id, args);
                assert(views(args@) =~= variable_terms(us));
                lemma_substitute_size(p@, x as int, t@);
            }
            skolemize(substitute(*p, x, &t), universals, ri)
        },
        _ => f,
    }
}

} // verus!
