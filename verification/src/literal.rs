//! Literals: equations and disequations between terms.
use crate::substitution::Substitution;
use crate::term::{clip, weighted_size, SubstV, Term, TermV};
use vstd::prelude::*;

verus! {

/// The mathematical value of a literal: `lhs = rhs` where `positive`,
/// `lhs != rhs` otherwise.
pub struct LiteralV {
    pub positive: bool,
    pub lhs: TermV,
    pub rhs: TermV,
}

impl LiteralV {
    /// Whether both literals relate the same two terms, in either order.
    pub open spec fn same_terms(self, other: LiteralV) -> bool {
        (self.lhs == other.lhs && self.rhs == other.rhs) || (self.lhs == other.rhs && self.rhs
            == other.lhs)
    }

    /// Whether both denote the same literal: equality is symmetric.
    pub open spec fn same(self, other: LiteralV) -> bool {
        self.positive == other.positive && self.same_terms(other)
    }

    /// The literal of the opposite polarity.
    pub open spec fn negate(self) -> LiteralV {
        LiteralV { positive: !self.positive, lhs: self.lhs, rhs: self.rhs }
    }

    /// The literal with its two sides exchanged.
    pub open spec fn flip(self) -> LiteralV {
        LiteralV { positive: self.positive, lhs: self.rhs, rhs: self.lhs }
    }

    /// The instance of the literal under a substitution.
    pub open spec fn apply(self, s: SubstV) -> LiteralV {
        LiteralV { positive: self.positive, lhs: self.lhs.apply(s), rhs: self.rhs.apply(s) }
    }

    /// Whether the variable `x` occurs in the literal.
    pub open spec fn occurs(self, x: int) -> bool {
        self.lhs.occurs(x) || self.rhs.occurs(x)
    }

    /// How often `u` occurs in the multiset of terms that stands for the
    /// literal: `{lhs, rhs}` for an equation, `{lhs, lhs, rhs, rhs}` for a
    /// disequation.
    pub open spec fn count(self, u: TermV) -> nat {
        let m: nat = if self.positive { 1 } else { 2 };
        let a: nat = if self.lhs == u { m } else { 0 };
        let b: nat = if self.rhs == u { m } else { 0 };
        a + b
    }

    /// The weighted number of symbols of both sides.
    pub open spec fn weighted_size(self, f: nat, v: nat) -> nat {
        weighted_size(self.lhs, f, v) + weighted_size(self.rhs, f, v)
    }
}

/// A single literal.
#[derive(Debug)]
pub struct Literal {
    pub negated: bool,
    pub lhs: Term,
    pub rhs: Term,
}

impl View for Literal {
    type V = LiteralV;

    open spec fn view(&self) -> LiteralV {
        LiteralV { positive: !self.negated, lhs: self.lhs@, rhs: self.rhs@ }
    }
}

/// Whether two literals relate the same two terms, whatever their polarity.
pub fn terms_equal(l1: &Literal, l2: &Literal) -> (r: bool)
    ensures
        r == l1@.same_terms(l2@),
{
    (l1.lhs.equals(&l2.lhs) && l1.rhs.equals(&l2.rhs)) || (l1.lhs.equals(&l2.rhs)
        && l1.rhs.equals(&l2.lhs))
}

impl Literal {
    /// The literal `lhs != rhs` where `negated`, `lhs = rhs` otherwise.
    pub fn new(negated: bool, lhs: Term, rhs: Term) -> (l: Literal)
        ensures
            l@ == (LiteralV { positive: !negated, lhs: lhs@, rhs: rhs@ }),
    {
        Literal { negated, lhs, rhs }
    }

    /// Whether the literal is an equation.
    pub fn is_positive(&self) -> (r: bool)
        ensures
            r == self@.positive,
    {
        !self.negated
    }

    /// Whether the literal is a disequation.
    pub fn is_negative(&self) -> (r: bool)
        ensures
            r == !self@.positive,
    {
        self.negated
    }

    /// The left-hand side.
    pub fn get_lhs(&self) -> (t: &Term)
        ensures
            t@ == self@.lhs,
    {
        &self.lhs
    }

    /// The right-hand side.
    pub fn get_rhs(&self) -> (t: &Term)
        ensures
            t@ == self@.rhs,
    {
        &self.rhs
    }

    /// The literal of the opposite polarity.
    pub fn negate(&self) -> (l: Literal)
        ensures
            l@ == self@.negate(),
    {
        Literal { negated: !self.negated, lhs: self.lhs.clone(), rhs: self.rhs.clone() }
    }

    /// Whether both denote the same literal: equal polarity and the same two
    /// sides, in either order.
    pub fn equals(&self, other: &Literal) -> (r: bool)
        ensures
            r == self@.same(other@),
    {
        self.negated == other.negated && terms_equal(self, other)
    }

    /// The instance of the literal under a substitution.
    pub fn apply(&self, sigma: &Substitution) -> (l: Literal)
        ensures
            l@ == self@.apply(sigma@),
    {
        Literal { negated: self.negated, lhs: sigma.apply(&self.lhs), rhs: sigma.apply(&self.rhs) }
    }

    /// Replaces the literal by its instance under a substitution.
    pub fn subst(&mut self, sigma: &Substitution)
        ensures
            final(self)@ == old(self)@.apply(sigma@),
    {
        let l = self.apply(sigma);
        *self = l;
    }

    /// The number of symbols of both sides, each function symbol counted as
    /// `f_value` and each variable as `v_value`, cut off at the largest number.
    pub fn symbol_count(&self, f_value: u64, v_value: u64) -> (n: u64)
        ensures
            n == clip(self@.weighted_size(f_value as nat, v_value as nat)),
    {
        self.lhs.symbol_count(f_value, v_value).saturating_add(
            self.rhs.symbol_count(f_value, v_value),
        )
    }
}

impl Clone for Literal {
    fn clone(&self) -> (l: Literal)
        ensures
            l@ == self@,
    {
        Literal { negated: self.negated, lhs: self.lhs.clone(), rhs: self.rhs.clone() }
    }
}

impl PartialEq for Literal {
    fn eq(&self, other: &Literal) -> (r: bool) {
        self.equals(other)
    }
}

impl vstd::std_specs::cmp::PartialEqSpecImpl for Literal {
    open spec fn obeys_eq_spec() -> bool {
        true
    }

    open spec fn eq_spec(&self, other: &Literal) -> bool {
        self@.same(other@)
    }
}

} // verus!
