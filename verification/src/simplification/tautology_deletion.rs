//! Tautology deletion.
use crate::clause::{Clause, ClauseV};
use crate::literal::terms_equal;
use crate::semantics::{clause_holds, literal_holds, models, valid, Interpretation, Valuation};
use vstd::prelude::*;

verus! {

/// Whether the clause holds an equation between a term and itself.
pub open spec fn has_trivial_equation(c: ClauseV) -> bool {
    exists|i: int| 0 <= i < c.len() && (#[trigger] c[i]).positive && c[i].lhs == c[i].rhs
}

/// Whether the clause holds a literal and its complement.
pub open spec fn has_complementary_pair(c: ClauseV) -> bool {
    exists|i: int, j: int|
        0 <= i < j < c.len() && (#[trigger] c[i]).positive != (#[trigger] c[j]).positive
            && c[i].same_terms(c[j])
}

/// Whether the clause is a tautology by one of the two tests.
pub open spec fn is_tautology(c: ClauseV) -> bool {
    has_trivial_equation(c) || has_complementary_pair(c)
}

/// Checks whether a clause is a tautology: it holds `s = s`, or a literal
/// together with its complement.
pub fn trivial(cl: &Clause) -> (r: bool)
    ensures
        r == is_tautology(cl@),
{
    td1(cl) || td2(cl)
}

/// Checks whether the clause holds an equation between a term and itself.
pub fn td1(cl: &Clause) -> (r: bool)
    ensures
        r == has_trivial_equation(cl@),
{
    let n = cl.size();
    let mut i: usize = 0;
    while i < n
        invariant
            0 <= i <= n,
            n == cl@.len(),
            forall|k: int| 0 <= k < i ==> !((#[trigger] cl@[k]).positive && cl@[k].lhs == cl@[k].rhs),
        decreases n - i,
    {
        let l = cl.at(i);
        if l.is_positive() && l.get_lhs().equals(l.get_rhs()) {
            return true;
        }
        i += 1;
    }
    false
}

/// Checks whether the clause holds a literal and its complement.
pub fn td2(cl: &Clause) -> (r: bool)
    ensures
        r == has_complementary_pair(cl@),
{
    let n = cl.size();
    let mut i: usize = 0;
    while i < n
        invariant
            0 <= i <= n,
            n == cl@.len(),
            forall|a: int, b: int|
                0 <= a < i && a < b < n ==> !((#[trigger] cl@[a]).positive != (
                #[trigger] cl@[b]).positive && cl@[a].same_terms(cl@[b])),
        decreases n - i,
    {
        let l1 = cl.at(i);
        let mut j: usize = i + 1;
        while j < n
            invariant
                i < j <= n,
                n == cl@.len(),
                l1@ == cl@[i as int],
                forall|b: int|
                    i < b < j ==> !(cl@[i as int].positive != (#[trigger] cl@[b]).positive
                        && cl@[i as int].same_terms(cl@[b])),
            decreases n - j,
        {
            let l2 = cl.at(j);
            if l1.is_positive() != l2.is_positive() && terms_equal(l1, l2) {
                return true;
            }
            j += 1;
        }
        i += 1;
    }
    false
}

/// A clause that was found to be a tautology holds in every interpretation
/// under every assignment.
pub proof fn lemma_tautology_valid(c: ClauseV)
    requires
        is_tautology(c),
    ensures
        valid(c),
{
    assert forall|m: Interpretation| #[trigger] models(m, c) by {
        assert forall|v: Valuation| #[trigger] clause_holds(c, m, v) by {
            if has_trivial_equation(c) {
                let i = choose|i: int|
                    0 <= i < c.len() && (#[trigger] c[i]).positive && c[i].lhs == c[i].rhs;
                assert(literal_holds(c[i], m, v));
            } else {
                let (i, j) = choose|i: int, j: int|
                    0 <= i < j < c.len() && (#[trigger] c[i]).positive != (
                    #[trigger] c[j]).positive && c[i].same_terms(c[j]);
                assert(literal_holds(c[i], m, v) || literal_holds(c[j], m, v));
            }
        }
    }
}

} // verus!
