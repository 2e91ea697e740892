//! The term ordering of a proof search, and its extension to literals.
use crate::literal::{Literal, LiteralV};
use crate::ordering::kbo::{kbo_fits, kbo_ge, kbo_greater_bounded, kbo_gt};
use crate::ordering::lpo::{lpo_ge, lpo_greater, lpo_gt};
use crate::ordering::precedence::Precedence;
use crate::ordering::weight::Weight;
use crate::term::{SubstV, Term, TermV};
use vstd::prelude::*;

verus! {

/// A generic term ordering. Currently we have the option of using either LPO or KBO.
#[derive(Debug, Clone, Copy)]
pub enum TermOrdering {
    /// The lexicographic path ordering over a precedence.
    LPO(Precedence),
    /// The Knuth-Bendix ordering over a precedence, a weight function and
    /// the weight of a variable.
    KBO(Precedence, Weight, u64),
}

/// How many more times `u` occurs in the multiset of `l` than in that of `r`.
pub open spec fn surplus(l: LiteralV, r: LiteralV, u: TermV) -> nat {
    if l.count(u) > r.count(u) {
        (l.count(u) - r.count(u)) as nat
    } else {
        0
    }
}

/// How one term compares with another in a term ordering.
#[derive(Debug, Clone, Copy, PartialEq, Eq)]
pub enum Comparison {
    Greater,
    Less,
    Equal,
    Incomparable,
}

impl TermOrdering {
    /// Whether `s` is greater than `t`. In the KBO, a term whose weight is
    /// not below the largest number is comparable with no term.
    pub open spec fn greater(self, s: TermV, t: TermV) -> bool {
        match self {
            TermOrdering::LPO(p) => lpo_greater(p, s, t),
            TermOrdering::KBO(p, w, v) => kbo_greater_bounded(p, w, v, s, t),
        }
    }

    /// Whether `s` is `t` or greater than `t`.
    pub open spec fn greater_eq(self, s: TermV, t: TermV) -> bool {
        s == t || self.greater(s, t)
    }

    /// Whether the ordering is a simplification ordering: for the KBO, a
    /// variable weighs something and no symbol weighs less than a variable.
    pub open spec fn admissible(self) -> bool {
        match self {
            TermOrdering::LPO(_) => true,
            TermOrdering::KBO(_, w, v) => 1 <= v <= w.symbol,
        }
    }

    /// Whether the term is within what the ordering can compute: for the
    /// KBO, its weight is below the largest number.
    pub open spec fn fits(self, t: TermV) -> bool {
        match self {
            TermOrdering::LPO(_) => true,
            TermOrdering::KBO(_, w, v) => kbo_fits(w, v, t),
        }
    }

    /// Whether the literal `l1` is greater than `l2` in the multiset
    /// extension of the term ordering, where `s = t` stands for `{s, t}` and
    /// `s != t` for `{s, s, t, t}`: the literals differ, and each term that
    /// occurs more often in `l2` than in `l1` is below a term that occurs
    /// more often in `l1` than in `l2`.
    pub open spec fn greater_lit(self, l1: LiteralV, l2: LiteralV) -> bool {
        &&& !l1.same(l2)
        &&& forall|u: TermV| #[trigger]
            l2.count(u) > l1.count(u) ==> exists|v: TermV| #[trigger]
                l1.count(v) > l2.count(v) && self.greater(v, u)
    }

    /// Whether `l1` is `l2` or greater than `l2`.
    pub open spec fn greater_eq_lit(self, l1: LiteralV, l2: LiteralV) -> bool {
        l1.same(l2) || self.greater_lit(l1, l2)
    }

    /// Returns true if term s is greater than term t according to the term ordering.
    pub fn gt(&self, s: &Term, t: &Term) -> (r: bool)
        ensures
            r == self.greater(s@, t@),
    {
        match self {
            TermOrdering::LPO(precedence) => lpo_gt(precedence, s, t),
            TermOrdering::KBO(precedence, weight, var_weight) => kbo_gt(
                precedence,
                weight,
                *var_weight,
                s,
                t,
            ),
        }
    }

    /// How `s` compares with `t`: equal terms are equal; else `s` is
    /// greater, or less where `t` is greater, or the two cannot be compared.
    pub open spec fn compared(self, s: TermV, t: TermV) -> Comparison {
        if s == t {
            Comparison::Equal
        } else if self.greater(s, t) {
            Comparison::Greater
        } else if self.greater(t, s) {
            Comparison::Less
        } else {
            Comparison::Incomparable
        }
    }

    /// Compares two terms according to the term ordering.
    pub fn compare(&self, s: &Term, t: &Term) -> (r: Comparison)
        ensures
            r == self.compared(s@, t@),
    {
        if s.equals(t) {
            Comparison::Equal
        } else if self.gt(s, t) {
            Comparison::Greater
        } else if self.gt(t, s) {
            Comparison::Less
        } else {
            Comparison::Incomparable
        }
    }

    /// Returns true if s is greater than or equal to t according to the term ordering.
    pub fn ge(&self, s: &Term, t: &Term) -> (r: bool)
        ensures
            r == self.greater_eq(s@, t@),
    {
        match self {
            TermOrdering::LPO(precedence) => lpo_ge(precedence, s, t),
            TermOrdering::KBO(precedence, weight, var_weight) => kbo_ge(
                precedence,
                weight,
                *var_weight,
                s,
                t,
            ),
        }
    }

    /// Whether some term that occurs more often in `l1` than in `l2`, as
    /// `diff` tells, is greater than `u`.
    fn dominated(&self, l1: &Literal, l2: &Literal, diff: (usize, usize), u: &Term) -> (r: bool)
        requires
            diff.0 == surplus(l1@, l2@, l1@.lhs),
            diff.1 == if l1@.lhs == l1@.rhs {
                0
            } else {
                surplus(l1@, l2@, l1@.rhs)
            },
        ensures
            r == exists|v: TermV| #[trigger] l1@.count(v) > l2@.count(v) && self.greater(v, u@),
    {
        if diff.0 != 0 && self.gt(&l1.lhs, u) {
            proof {
                assert(l1@.count(l1@.lhs) > l2@.count(l1@.lhs));
            }
            return true;
        }
        if diff.1 != 0 && self.gt(&l1.rhs, u) {
            proof {
                assert(l1@.count(l1@.rhs) > l2@.count(l1@.rhs));
            }
            return true;
        }
        proof {
            assert forall|v: TermV| #[trigger] l1@.count(v) > l2@.count(v) implies !self.greater(
                v,
                u@,
            ) by {
                assert(v == l1@.lhs || v == l1@.rhs);
            }
        }
        false
    }

    /// Checks if literal l1 is greater than literal l2.
    /// This is based on the multiset extension of the term ordering.
    pub fn gt_lit(&self, l1: &Literal, l2: &Literal) -> (r: bool)
        ensures
            r == self.greater_lit(l1@, l2@),
    {
        // A literal equal to another literal can never be greater than it.
        if l1.equals(l2) {
            return false;
        }
        let l1_l2_diff = multiset_difference(l1, l2);
        let l2_l1_diff = multiset_difference(l2, l1);

        // l1 > l2 iff for each t2 of l2 with n(t2, l2) > n(t2, l1),
        // there is a t of l1 so that t > t2 and n(t, l1) > n(t, l2).
        if l2_l1_diff.0 != 0 && !self.dominated(l1, l2, l1_l2_diff, &l2.lhs) {
            proof {
                assert(l2@.count(l2@.lhs) > l1@.count(l2@.lhs));
            }
            return false;
        }
        if l2_l1_diff.1 != 0 && !self.dominated(l1, l2, l1_l2_diff, &l2.rhs) {
            proof {
                assert(l2@.count(l2@.rhs) > l1@.count(l2@.rhs));
            }
            return false;
        }
        proof {
            assert forall|u: TermV| #[trigger] l2@.count(u) > l1@.count(u) implies exists|v: TermV| #[trigger]
                l1@.count(v) > l2@.count(v) && self.greater(v, u) by {
                assert(u == l2@.lhs || u == l2@.rhs);
            }
        }
        true
    }

    /// Returns true if literal l1 is greater than or equal to literal l2.
    /// This is based on the multiset extension of the term ordering.
    pub fn ge_lit(&self, l1: &Literal, l2: &Literal) -> (r: bool)
        ensures
            r == self.greater_eq_lit(l1@, l2@),
    {
        l1.equals(l2) || self.gt_lit(l1, l2)
    }
}

/// The smaller of two numbers.
fn min(a: usize, b: usize) -> (m: usize)
    ensures
        m == if a <= b {
            a
        } else {
            b
        },
{
    if a <= b {
        a
    } else {
        b
    }
}

/// Calculates the multiset difference of two literals.
/// We map s = t to { s, t } and s <> t to { s, s, t, t }.
///
/// The first number says how many more times the left-hand side of `l`
/// occurs in `l` than in `r`, the second the same of the right-hand side;
/// where both sides of `l` are the same term, the first number counts for
/// both and the second is zero.
pub fn multiset_difference(l: &Literal, r: &Literal) -> (d: (usize, usize))
    ensures
        d.0 == surplus(l@, r@, l@.lhs),
        d.1 == if l@.lhs == l@.rhs {
            0
        } else {
            surplus(l@, r@, l@.rhs)
        },
{
    let mut l_count: (usize, usize) = (
        if l.is_negative() {
            2
        } else {
            1
        },
        if l.is_negative() {
            2
        } else {
            1
        },
    );
    let mut r_count: (usize, usize) = (
        if r.is_negative() {
            2
        } else {
            1
        },
        if r.is_negative() {
            2
        } else {
            1
        },
    );

    // Special handling of the case when lhs == rhs
    if l.get_lhs().equals(l.get_rhs()) {
        l_count.0 = l_count.0 + l_count.1;
        l_count.1 = 0;
    }
    // Same here.

    if r.get_lhs().equals(r.get_rhs()) {
        r_count.0 = r_count.0 + r_count.1;
        r_count.1 = 0;
    }
    if r.get_lhs().equals(l.get_lhs()) {
        let min_diff = min(l_count.0, r_count.0);
        l_count.0 = l_count.0 - min_diff;
        r_count.0 = r_count.0 - min_diff;
    }
    if r.get_lhs().equals(l.get_rhs()) {
        let min_diff = min(l_count.1, r_count.0);
        l_count.1 = l_count.1 - min_diff;
        r_count.0 = r_count.0 - min_diff;
    }
    if r.get_rhs().equals(l.get_lhs()) {
        let min_diff = min(l_count.0, r_count.1);
        l_count.0 = l_count.0 - min_diff;
        r_count.1 = r_count.1 - min_diff;
    }
    if r.get_rhs().equals(l.get_rhs()) {
        let min_diff = min(l_count.1, r_count.1);
        l_count.1 = l_count.1 - min_diff;
        r_count.1 = r_count.1 - min_diff;
    }
    l_count
}

/// Literals with the same multisets of terms compare alike.
proof fn lemma_greater_lit_counts(
    ord: TermOrdering,
    l1: LiteralV,
    l2: LiteralV,
    k1: LiteralV,
    k2: LiteralV,
)
    requires
        forall|u: TermV| #[trigger] l1.count(u) == k1.count(u),
        forall|u: TermV| #[trigger] l2.count(u) == k2.count(u),
        l1.same(l2) == k1.same(k2),
        ord.greater_lit(l1, l2),
    ensures
        ord.greater_lit(k1, k2),
{
    assert forall|u: TermV| #[trigger] k2.count(u) > k1.count(u) implies exists|v: TermV| #[trigger]
        k1.count(v) > k2.count(v) && ord.greater(v, u) by {
        assert(l2.count(u) == k2.count(u));
        assert(l1.count(u) == k1.count(u));
        let v = choose|v: TermV| #[trigger] l1.count(v) > l2.count(v) && ord.greater(v, u);
        assert(l1.count(v) == k1.count(v));
        assert(l2.count(v) == k2.count(v));
    }
}

/// Exchanging the two sides of a literal changes nothing in how it compares
/// with another literal.
pub proof fn lemma_greater_lit_symmetric(ord: TermOrdering, l: LiteralV, other: LiteralV)
    ensures
        ord.greater_lit(l.flip(), other) == ord.greater_lit(l, other),
        ord.greater_lit(other, l.flip()) == ord.greater_lit(other, l),
{
    let f = l.flip();
    assert forall|u: TermV| #[trigger] f.count(u) == l.count(u) by {}
    assert forall|u: TermV| #[trigger] l.count(u) == f.count(u) by {}
    if ord.greater_lit(l, other) {
        lemma_greater_lit_counts(ord, l, other, f, other);
    }
    if ord.greater_lit(f, other) {
        lemma_greater_lit_counts(ord, f, other, l, other);
    }
    if ord.greater_lit(other, l) {
        lemma_greater_lit_counts(ord, other, l, other, f);
    }
    if ord.greater_lit(other, f) {
        lemma_greater_lit_counts(ord, other, f, other, l);
    }
}

/// No term is greater than itself.
pub proof fn lemma_greater_irreflexive(ord: TermOrdering, s: TermV)
    ensures
        !ord.greater(s, s),
{
    match ord {
        TermOrdering::LPO(p) => crate::ordering::lpo::lemma_lpo_irreflexive(p, s),
        TermOrdering::KBO(p, w, v) => crate::ordering::kbo::lemma_kbo_irreflexive(p, w, v, s),
    }
}

/// The ordering is transitive.
pub proof fn lemma_greater_transitive(ord: TermOrdering, s: TermV, t: TermV, u: TermV)
    requires
        ord.greater(s, t),
        ord.greater(t, u),
    ensures
        ord.greater(s, u),
{
    match ord {
        TermOrdering::LPO(p) => crate::ordering::lpo::lemma_lpo_transitive(p, s, t, u),
        TermOrdering::KBO(p, w, v) => crate::ordering::kbo::lemma_kbo_transitive(p, w, v, s, t, u),
    }
}

/// The ordering is stable under substitution: the instances of terms
/// compare as the terms do. For the KBO the weights must be admissible and
/// the instances within what can be weighed.
pub proof fn lemma_greater_stable(ord: TermOrdering, s: TermV, t: TermV, sigma: SubstV)
    requires
        ord.admissible(),
        ord.greater(s, t),
        ord.fits(s.apply(sigma)),
        ord.fits(t.apply(sigma)),
    ensures
        ord.greater(s.apply(sigma), t.apply(sigma)),
{
    match ord {
        TermOrdering::LPO(p) => crate::ordering::lpo::lemma_lpo_stable(p, s, t, sigma),
        TermOrdering::KBO(p, w, v) => crate::ordering::kbo_stability::lemma_kbo_stable(
            p,
            w,
            v,
            s,
            t,
            sigma,
        ),
    }
}

/// The ordering is monotone: a term is greater than the term with one of
/// its arguments replaced by a smaller term. For the KBO the term must be
/// within what can be weighed.
pub proof fn lemma_greater_monotone(ord: TermOrdering, f: TermV, k: int, t: TermV)
    requires
        f is Fun,
        0 <= k < f.args().len(),
        ord.greater(f.args()[k], t),
        ord.fits(f),
    ensures
        ord.greater(f, TermV::Fun(f.id(), f.predicate(), f.args().update(k, t))),
{
    match ord {
        TermOrdering::LPO(p) => crate::ordering::lpo::lemma_lpo_monotone(p, f, k, t),
        TermOrdering::KBO(p, w, v) => {
            crate::ordering::kbo::lemma_kbo_monotone(p, w, v, f, k, t);
            crate::ordering::kbo::lemma_weighted_sum_update(
                f.args(),
                k,
                t,
                w.symbol as nat,
                v as nat,
            );
        },
    }
}

} // verus!
