//! The transformation of a formula to conjunctive normal form.
use crate::cnf::ast::{Formula, FormulaV};
use crate::cnf::distribute::{distribute, distribute_spec};
use crate::cnf::drop_universal_quantifiers::{drop_universal_quantifiers, lemma_drop_quantified, prenex, strip_spec, universal_variables, contains_universal_spec};
use crate::cnf::nnf::{nnf, nnf_spec};
use crate::cnf::renaming_info::RenamingInfo;
use crate::cnf::skolemization::{existentials, skolemize, skolemize_spec};
use crate::cnf::variable_renaming::{quantifiers, rename, rename_spec};
use vstd::prelude::*;

verus! {

/// The formula in negation normal form with its bound variables renamed apart.
pub open spec fn renamed_spec(f: FormulaV, ri: RenamingInfo) -> FormulaV {
    rename_spec(nnf_spec(f, true), ri.var_cnt as int).0
}

/// The renamed formula without existential quantifiers.
pub open spec fn skolemized_spec(f: FormulaV, ri: RenamingInfo) -> FormulaV {
    skolemize_spec(renamed_spec(f, ri), Seq::empty(), ri.fun_cnt as int).0
}

/// The conjunctive normal form of a formula: negation normal form, bound
/// variables renamed apart, existential quantifiers replaced by new function
/// symbols, universal quantifiers dropped, disjunctions distributed.
pub open spec fn cnf_spec(f: FormulaV, ri: RenamingInfo) -> FormulaV {
    distribute_spec(strip_spec(skolemized_spec(f, ri)))
}

/// Whether the counters have a variable for each quantifier and a function
/// symbol for each existential quantifier of the formula.
pub open spec fn enough_names(f: FormulaV, ri: RenamingInfo) -> bool {
    &&& ri.var_cnt - quantifiers(nnf_spec(f, true)) >= i64::MIN
    &&& ri.fun_cnt + existentials(renamed_spec(f, ri)) <= i64::MAX
}

/// The counters after the transformation of a formula: a variable was
/// taken for each quantifier and a function symbol for each existential
/// quantifier.
pub open spec fn counters_left(f: FormulaV, ri: RenamingInfo) -> RenamingInfo {
    RenamingInfo {
        var_cnt: (ri.var_cnt - quantifiers(nnf_spec(f, true))) as i64,
        fun_cnt: (ri.fun_cnt + existentials(renamed_spec(f, ri))) as i64,
    }
}

/// A formula without its universal quantifiers has none at the top of a
/// part of a conjunction or disjunction.
pub proof fn lemma_strip_no_universal(f: FormulaV)
    ensures
        !contains_universal_spec(strip_spec(f)),
        !(strip_spec(f) is Forall),
    decreases f,
{
    match f {
        FormulaV::And(p, q) | FormulaV::Or(p, q) => {
            lemma_strip_no_universal(*p);
            lemma_strip_no_universal(*q);
        },
        FormulaV::Forall(_, p) => lemma_strip_no_universal(*p),
        _ => {},
    }
}

/// The number of quantifiers of the formula, or of its existential
/// quantifiers only, if the number can be held.
fn count_quantifiers(f: &Formula, existential_only: bool) -> (r: Option<u64>)
    ensures
        match r {
            Some(n) => n == if existential_only {
                existentials(f@)
            } else {
                quantifiers(f@)
            },
            None => (if existential_only {
                existentials(f@)
            } else {
                quantifiers(f@)
            }) > u64::MAX,
        },
    decreases f,
{
    match f {
        Formula::Not(p) => count_quantifiers(p, existential_only),
        Formula::And(p, q) | Formula::Or(p, q) | Formula::Implies(p, q) | Formula::Equivalent(
            p,
            q,
        ) => {
            match (count_quantifiers(p, existential_only), count_quantifiers(q, existential_only)) {
                (Some(a), Some(b)) => a.checked_add(b),
                _ => None,
            }
        },
        Formula::Forall(_, p) => {
            if existential_only {
                count_quantifiers(p, existential_only)
            } else {
                match count_quantifiers(p, existential_only) {
                    Some(a) => a.checked_add(1),
                    None => None,
                }
            }
        },
        Formula::Exists(_, p) => match count_quantifiers(p, existential_only) {
            Some(a) => a.checked_add(1),
            None => None,
        },
        _ => Some(0),
    }
}

/// Transforms a formula to conjunctive normal form. New variables and
/// function symbols are taken from the counters; where these do not
/// suffice, nothing is returned.
pub fn cnf(f: Formula, ri: &mut RenamingInfo) -> (r: Option<Formula>)
    ensures
        match r {
            Some(c) => enough_names(f@, *old(ri)) && c@ == cnf_spec(f@, *old(ri)) && *final(ri)
                == counters_left(f@, *old(ri)),
            None => !enough_names(f@, *old(ri)),
        },
        final(ri).var_cnt <= old(ri).var_cnt,
        final(ri).fun_cnt >= old(ri).fun_cnt,
{
    let normal = nnf(&f, true);
    let enough = match count_quantifiers(&normal, false) {
        Some(n) => (ri.var_cnt as i128) - (n as i128) >= i64::MIN as i128,
        None => false,
    };
    if !enough {
        return None;
    }
    let renamed = rename(normal, ri);
    let enough = match count_quantifiers(&renamed, true) {
        Some(n) => (ri.fun_cnt as i128) + (n as i128) <= i64::MAX as i128,
        None => false,
    };
    if !enough {
        return None;
    }
    let mut universals: Vec<i64> = Vec::new();
    proof {
        assert(crate::cnf::skolemization::ids_view(universals@) =~= Seq::<int>::empty());
    }
    let skolemized = skolemize(renamed, &mut universals, ri);
    let prenexed = prenex(skolemized);
    proof {
        lemma_strip_no_universal(skolemized@);
        lemma_drop_quantified(universal_variables(skolemized@), strip_spec(skolemized@));
    }
    let matrix = drop_universal_quantifiers(prenexed);
    Some(distribute(matrix))
}

} // verus!
