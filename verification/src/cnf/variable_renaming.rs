//! Renaming the bound variables of a formula apart.
use crate::cnf::ast::{lemma_function_view, views, Formula, FormulaV, Term};
use crate::cnf::renaming_info::RenamingInfo;
use crate::term::TermV;
use vstd::prelude::*;

verus! {

/// The terms with the variable `from` replaced by the variable `to`.
pub open spec fn rename_in_terms(ts: Seq<TermV>, from: int, to: int) -> Seq<TermV> {
    Seq::new(ts.len(), |i: int| ts[i].replace(from, TermV::Var(to)))
}

/// The formula with the variable `from` replaced by the variable `to`,
/// where it occurs and where it is bound.
pub open spec fn rename_variable_spec(f: FormulaV, from: int, to: int) -> FormulaV
    decreases f,
{
    match f {
        FormulaV::Predicate(id, terms) => FormulaV::Predicate(id, rename_in_terms(terms, from, to)),
        FormulaV::Not(p) => FormulaV::Not(Box::new(rename_variable_spec(*p, from, to))),
        FormulaV::And(p, q) => FormulaV::And(
            Box::new(rename_variable_spec(*p, from, to)),
            Box::new(rename_variable_spec(*q, from, to)),
        ),
        FormulaV::Or(p, q) => FormulaV::Or(
            Box::new(rename_variable_spec(*p, from, to)),
            Box::new(rename_variable_spec(*q, from, to)),
        ),
        FormulaV::Implies(p, q) => FormulaV::Implies(
            Box::new(rename_variable_spec(*p, from, to)),
            Box::new(rename_variable_spec(*q, from, to)),
        ),
        FormulaV::Equivalent(p, q) => FormulaV::Equivalent(
            Box::new(rename_variable_spec(*p, from, to)),
            Box::new(rename_variable_spec(*q, from, to)),
        ),
        FormulaV::Forall(id, p) => FormulaV::Forall(
            if id == from { to } else { id },
            Box::new(rename_variable_spec(*p, from, to)),
        ),
        FormulaV::Exists(id, p) => FormulaV::Exists(
            if id == from { to } else { id },
            Box::new(rename_variable_spec(*p, from, to)),
        ),
        _ => f,
    }
}

/// Renaming a variable does not change the size of a formula.
pub proof fn lemma_rename_variable_size(f: FormulaV, from: int, to: int)
    ensures
        rename_variable_spec(f, from, to).size() == f.size(),
    decreases f,
{
    match f {
        FormulaV::Not(p) => lemma_rename_variable_size(*p, from, to),
        FormulaV::And(p, q) | FormulaV::Or(p, q) | FormulaV::Implies(p, q) | FormulaV::Equivalent(
            p,
            q,
        ) => {
            lemma_rename_variable_size(*p, from, to);
            lemma_rename_variable_size(*q, from, to);
        },
        FormulaV::Forall(_, p) | FormulaV::Exists(_, p) => lemma_rename_variable_size(*p, from, to),
        _ => {},
    }
}

/// The number of quantifiers of a formula.
pub open spec fn quantifiers(f: FormulaV) -> nat
    decreases f,
{
    match f {
        FormulaV::Not(p) => quantifiers(*p),
        FormulaV::And(p, q) | FormulaV::Or(p, q) | FormulaV::Implies(p, q) | FormulaV::Equivalent(
            p,
            q,
        ) => quantifiers(*p) + quantifiers(*q),
        FormulaV::Forall(_, p) | FormulaV::Exists(_, p) => 1 + quantifiers(*p),
        _ => 0,
    }
}

/// Renaming a variable does not change the number of quantifiers.
pub proof fn lemma_rename_variable_quantifiers(f: FormulaV, from: int, to: int)
    ensures
        quantifiers(rename_variable_spec(f, from, to)) == quantifiers(f),
    decreases f,
{
    match f {
        FormulaV::Not(p) => lemma_rename_variable_quantifiers(*p, from, to),
        FormulaV::And(p, q) | FormulaV::Or(p, q) | FormulaV::Implies(p, q) | FormulaV::Equivalent(
            p,
            q,
        ) => {
            lemma_rename_variable_quantifiers(*p, from, to);
            lemma_rename_variable_quantifiers(*q, from, to);
        },
        FormulaV::Forall(_, p) | FormulaV::Exists(_, p) => lemma_rename_variable_quantifiers(
            *p,
            from,
            to,
        ),
        _ => {},
    }
}

/// The formula with each quantifier binding a variable of its own: the
/// quantifiers get, from the outside in and from left to right, the
/// variables below `var_cnt`. The second component is the last variable used.
pub open spec fn rename_spec(f: FormulaV, var_cnt: int) -> (FormulaV, int)
    decreases f.size(),
    via rename_spec_decreases
{
    match f {
        FormulaV::Not(p) => {
            let (left, c) = rename_spec(*p, var_cnt);
            (FormulaV::Not(Box::new(left)), c)
        },
        FormulaV::And(p, q) => {
            let (left, c) = rename_spec(*p, var_cnt);
            let (right, c2) = rename_spec(*q, c);
            (FormulaV::And(Box::new(left), Box::new(right)), c2)
        },
        FormulaV::Or(p, q) => {
            let (left, c) = rename_spec(*p, var_cnt);
            let (right, c2) = rename_spec(*q, c);
            (FormulaV::Or(Box::new(left), Box::new(right)), c2)
        },
        FormulaV::Implies(p, q) => {
            let (left, c) = rename_spec(*p, var_cnt);
            let (right, c2) = rename_spec(*q, c);
            (FormulaV::Implies(Box::new(left), Box::new(right)), c2)
        },
        FormulaV::Equivalent(p, q) => {
            let (left, c) = rename_spec(*p, var_cnt);
            let (right, c2) = rename_spec(*q, c);
            (FormulaV::Equivalent(Box::new(left), Box::new(right)), c2)
        },
        FormulaV::Forall(id, p) => {
            let (left, c) = rename_spec(rename_variable_spec(*p, id, var_cnt - 1), var_cnt - 1);
            (FormulaV::Forall(var_cnt - 1, Box::new(left)), c)
        },
        FormulaV::Exists(id, p) => {
            let (left, c) = rename_spec(rename_variable_spec(*p, id, var_cnt - 1), var_cnt - 1);
            (FormulaV::Exists(var_cnt - 1, Box::new(left)), c)
        },
        _ => (f, var_cnt),
    }
}

#[via_fn]
proof fn rename_spec_decreases(f: FormulaV, var_cnt: int) {
    match f {
        FormulaV::Forall(id, p) | FormulaV::Exists(id, p) => {
            lemma_rename_variable_size(*p, id, var_cnt - 1);
        },
        _ => {},
    }
}

/// Renaming apart uses as many variables as the formula has quantifiers.
pub proof fn lemma_rename_count(f: FormulaV, var_cnt: int)
    ensures
        rename_spec(f, var_cnt).1 == var_cnt - quantifiers(f),
    decreases f.size(),
{
    match f {
        FormulaV::Not(p) => lemma_rename_count(*p, var_cnt),
        FormulaV::And(p, q) | FormulaV::Or(p, q) | FormulaV::Implies(p, q) | FormulaV::Equivalent(
            p,
            q,
        ) => {
            lemma_rename_count(*p, var_cnt);
            lemma_rename_count(*q, rename_spec(*p, var_cnt).1);
        },
        FormulaV::Forall(id, p) | FormulaV::Exists(id, p) => {
            lemma_rename_variable_size(*p, id, var_cnt - 1);
            lemma_rename_variable_quantifiers(*p, id, var_cnt - 1);
            lemma_rename_count(rename_variable_spec(*p, id, var_cnt - 1), var_cnt - 1);
        },
        _ => {},
    }
}

/// Gives each quantifier of the formula a variable of its own, taken from
/// the counter. The counter must have a variable left for each quantifier.
pub fn rename(f: Formula, ri: &mut RenamingInfo) -> (r: Formula)
    requires
        old(ri).var_cnt - quantifiers(f@) >= i64::MIN,
    ensures
        r@ == rename_spec(f@, old(ri).var_cnt as int).0,
        final(ri).var_cnt == rename_spec(f@, old(ri).var_cnt as int).1,
        final(ri).var_cnt == old(ri).var_cnt - quantifiers(f@),
        final(ri).fun_cnt == old(ri).fun_cnt,
    decreases f@.size(), 1int,
{
    proof {
        lemma_rename_count(f@, ri.var_cnt as int);
    }
    match f {
        Formula::Not(p) => Formula::Not(Box::new(rename(*p, ri))),
        Formula::And(p, q) => {
            proof {
                lemma_rename_count(p@, ri.var_cnt as int);
            }
            let left = rename(*p, ri);
            proof {
                lemma_rename_count(q@, ri.var_cnt as int);
            }
            let right = rename(*q, ri);
            Formula::And(Box::new(left), Box::new(right))
        },
        Formula::Or(p, q) => {
            proof {
                lemma_rename_count(p@, ri.var_cnt as int);
            }
            let left = rename(*p, ri);
            proof {
                lemma_rename_count(q@, ri.var_cnt as int);
            }
            let right = rename(*q, ri);
            Formula::Or(Box::new(left), Box::new(right))
        },
        Formula::Implies(p, q) => {
            proof {
                lemma_rename_count(p@, ri.var_cnt as int);
            }
            let left = rename(*p, ri);
            proof {
                lemma_rename_count(q@, ri.var_cnt as int);
            }
            let right = rename(*q, ri);
            Formula::Implies(Box::new(left), Box::new(right))
        },
        Formula::Equivalent(p, q) => {
            proof {
                lemma_rename_count(p@, ri.var_cnt as int);
            }
            let left = rename(*p, ri);
            proof {
                lemma_rename_count(q@, ri.var_cnt as int);
            }
            let right = rename(*q, ri);
            Formula::Equivalent(Box::new(left), Box::new(right))
        },
        Formula::Forall(id, p) => rename_quantifier(id, *p, ri, true),
        Formula::Exists(id, p) => rename_quantifier(id, *p, ri, false),
        _ => f,
    }
}

/// Gives the quantifier that binds `id` in `p` a new variable, and then
/// each quantifier of `p` a variable of its own.
fn rename_quantifier(id: i64, p: Formula, ri: &mut RenamingInfo, universal_quantifier: bool) -> (r:
    Formula)
    requires
        old(ri).var_cnt - 1 - quantifiers(p@) >= i64::MIN,
    ensures
        r@ == rename_spec(
            if universal_quantifier {
                FormulaV::Forall(id as int, Box::new(p@))
            } else {
                FormulaV::Exists(id as int, Box::new(p@))
            },
            old(ri).var_cnt as int,
        ).0,
        final(ri).var_cnt == old(ri).var_cnt - 1 - quantifiers(p@),
        final(ri).fun_cnt == old(ri).fun_cnt,
    decreases 1 + p@.size(), 0int,
{
    let new_id = ri.create_new_variable_id();
    proof {
        lemma_rename_variable_size(p@, id as int, new_id as int);
        lemma_rename_variable_quantifiers(p@, id as int, new_id as int);
        lemma_rename_count(rename_variable_spec(p@, id as int, new_id as int), new_id as int);
    }
    let renamed_p = rename(rename_variable(p, id, new_id), ri);
    if universal_quantifier {
        Formula::Forall(new_id, Box::new(renamed_p))
    } else {
        Formula::Exists(new_id, Box::new(renamed_p))
    }
}

/// Replaces the variable `from` by the variable `to` in a formula, where it
/// occurs and where it is bound.
pub fn rename_variable(f: Formula, from: i64, to: i64) -> (r: Formula)
    ensures
        r@ == rename_variable_spec(f@, from as int, to as int),
    decreases f,
{
    match f {
        Formula::Predicate(id, terms) => Formula::Predicate(
            id,
            rename_variable_in_terms(&terms, from, to),
        ),
        Formula::Not(p) => Formula::Not(Box::new(rename_variable(*p, from, to))),
        Formula::And(p, q) => Formula::And(
            Box::new(rename_variable(*p, from, to)),
            Box::new(rename_variable(*q, from, to)),
        ),
        Formula::Or(p, q) => Formula::Or(
            Box::new(rename_variable(*p, from, to)),
            Box::new(rename_variable(*q, from, to)),
        ),
        Formula::Implies(p, q) => Formula::Implies(
            Box::new(rename_variable(*p, from, to)),
            Box::new(rename_variable(*q, from, to)),
        ),
        Formula::Equivalent(p, q) => Formula::Equivalent(
            Box::new(rename_variable(*p, from, to)),
            Box::new(rename_variable(*q, from, to)),
        ),
        Formula::Forall(id, p) => Formula::Forall(
            if id == from {
                to
            } else {
                id
            },
            Box::new(rename_variable(*p, from, to)),
        ),
        Formula::Exists(id, p) => Formula::Exists(
            if id == from {
                to
            } else {
                id
            },
            Box::new(rename_variable(*p, from, to)),
        ),
        _ => f,
    }
}

/// Replaces the variable `from` by the variable `to` in each of the terms.
fn rename_variable_in_terms(terms: &Vec<Term>, from: i64, to: i64) -> (out: Vec<Term>)
    ensures
        views(out@) == rename_in_terms(views(terms@), from as int, to as int),
    decreases terms,
{
    let mut out: Vec<Term> = Vec::new();
    let n = terms.len();
    let mut i: usize = 0;
    while i < n
        invariant
            0 <= i <= n,
            n == terms.len(),
            out.len() == i,
            forall|j: int|
                0 <= j < i ==> out[j]@ == terms[j]@.replace(from as int, TermV::Var(to as int)),
        decreases n - i,
    {
        out.push(rename_variable_in_term(&terms[i], from, to));
        i += 1;
    }
    proof {
        assert(views(out@) =~= rename_in_terms(views(terms@), from as int, to as int));
    }
    out
}

/// Replaces the variable `from` by the variable `to` in a term.
pub fn rename_variable_in_term(t: &Term, from: i64, to: i64) -> (r: Term)
    ensures
        r@ == t@.replace(from as int, TermV::Var(to as int)),
    decreases t,
{
    match t {
        Term::Variable(id) => {
            if from == *id {
                Term::Variable(to)
            } else {
                Term::Variable(*id)
            }
        },
        Term::Function(id, args) => {
            let out = rename_variable_in_terms(args, from, to);
            proof {
                lemma_function_view(*id, out);
                lemma_function_view(*id, *args);
                assert(views(out@) =~= t@.replace(from as int, TermV::Var(to as int)).args());
            }
            Term::Function(*id, out)
        },
    }
}

} // verus!
