//! Maximality of a literal among the literals of a clause.
use crate::clause::{Clause, ClauseV};
use crate::literal::{Literal, LiteralV};
use crate::ordering::term_ordering::TermOrdering;
use crate::term::{SubstV, TermV};
use crate::unification::{idempotent, refines, unifier};
use vstd::prelude::*;

verus! {

/// Whether no literal of the clause is greater than `l`.
pub open spec fn maximal_in(ord: TermOrdering, c: ClauseV, l: LiteralV) -> bool {
    forall|i: int| 0 <= i < c.len() ==> !ord.greater_lit(#[trigger] c[i], l)
}

/// Whether no literal of the clause is `l` or greater than `l`.
pub open spec fn strictly_maximal_in(ord: TermOrdering, c: ClauseV, l: LiteralV) -> bool {
    forall|i: int| 0 <= i < c.len() ==> !ord.greater_eq_lit(#[trigger] c[i], l)
}

/// Whether `s` is a most general unifier of `a` and `b`: it makes them
/// equal, no variable of its domain occurs in its images, and every unifier
/// is an instance of it.
pub open spec fn most_general_unifier(s: SubstV, a: TermV, b: TermV) -> bool {
    &&& unifier(s, a, b)
    &&& idempotent(s)
    &&& forall|th: SubstV| #[trigger] unifier(th, a, b) ==> refines(th, s)
}

/// Whether some substitution makes `a` and `b` equal.
pub open spec fn unifiable(a: TermV, b: TermV) -> bool {
    exists|th: SubstV| unifier(th, a, b)
}

/// Checks that no literal of the clause is greater than `l`.
pub fn literal_maximal_in(term_ordering: &TermOrdering, cl: &Clause, l: &Literal) -> (r: bool)
    ensures
        r == maximal_in(*term_ordering, cl@, l@),
{
    let n = cl.size();
    let mut i: usize = 0;
    while i < n
        invariant
            0 <= i <= n,
            n == cl@.len(),
            forall|k: int| 0 <= k < i ==> !term_ordering.greater_lit(#[trigger] cl@[k], l@),
        decreases n - i,
    {
        if term_ordering.gt_lit(cl.at(i), l) {
            return false;
        }
        i += 1;
    }
    true
}

/// Checks that no literal of the clause is `l` or greater than `l`.
pub fn literal_strictly_maximal_in(term_ordering: &TermOrdering, cl: &Clause, l: &Literal) -> (r:
    bool)
    ensures
        r == strictly_maximal_in(*term_ordering, cl@, l@),
{
    let n = cl.size();
    let mut i: usize = 0;
    while i < n
        invariant
            0 <= i <= n,
            n == cl@.len(),
            forall|k: int| 0 <= k < i ==> !term_ordering.greater_eq_lit(#[trigger] cl@[k], l@),
        decreases n - i,
    {
        if term_ordering.ge_lit(cl.at(i), l) {
            return false;
        }
        i += 1;
    }
    true
}

} // verus!
