//! Precedences: total orders on the symbols.
use crate::term::{truth, Term, TermV};
use vstd::prelude::*;

verus! {

/// A total order on the function and predicate symbols. The truth constant is
/// the least symbol, and every function symbol is below every predicate symbol.
#[derive(Debug, Clone, Copy, PartialEq, Eq)]
pub enum Precedence {
    /// Symbols with more arguments are greater; among those with equally
    /// many, the one with the greater identifier.
    Arity,
    /// Symbols with the greater identifier are greater.
    Identifier,
}

/// The order of triples: by the first place where they differ.
pub open spec fn triple_greater(a: (int, int, int), b: (int, int, int)) -> bool {
    a.0 > b.0 || (a.0 == b.0 && (a.1 > b.1 || (a.1 == b.1 && a.2 > b.2)))
}

impl Precedence {
    /// The class of the head symbol of an application: the truth constant,
    /// a function symbol, or a predicate symbol.
    pub open spec fn class(t: TermV) -> int {
        if t == truth() {
            0
        } else if !t.predicate() {
            1
        } else {
            2
        }
    }

    /// The triple by which the head symbol of an application is ordered.
    pub open spec fn key(self, t: TermV) -> (int, int, int) {
        match self {
            Precedence::Arity => (Self::class(t), t.args().len() as int, t.id()),
            Precedence::Identifier => (Self::class(t), t.id(), t.args().len() as int),
        }
    }

    /// Whether the head symbol of `s` is above that of `t`.
    pub open spec fn greater(self, s: TermV, t: TermV) -> bool {
        s is Fun && t is Fun && triple_greater(self.key(s), self.key(t))
    }

    /// Whether the head symbol of `s` is above that of `t`.
    pub fn gt(&self, s: &Term, t: &Term) -> (r: bool)
        ensures
            r == self.greater(s@, t@),
    {
        if s.is_variable() || t.is_variable() {
            return false;
        }
        let cs: u8 = if s.is_truth() {
            0
        } else if !s.predicate {
            1
        } else {
            2
        };
        let ct: u8 = if t.is_truth() {
            0
        } else if !t.predicate {
            1
        } else {
            2
        };
        if cs != ct {
            return cs > ct;
        }
        let a = s.get_arity();
        let b = t.get_arity();
        match self {
            Precedence::Arity => a > b || (a == b && s.id > t.id),
            Precedence::Identifier => s.id > t.id || (s.id == t.id && a > b),
        }
    }
}

/// No symbol is above itself.
pub proof fn lemma_precedence_irreflexive(p: Precedence, s: TermV)
    ensures
        !p.greater(s, s),
{
}

/// The precedence is transitive.
pub proof fn lemma_precedence_transitive(p: Precedence, s: TermV, t: TermV, u: TermV)
    requires
        p.greater(s, t),
        p.greater(t, u),
    ensures
        p.greater(s, u),
{
}

/// Of two applications with different head symbols, one head is above the other.
pub proof fn lemma_precedence_total(p: Precedence, s: TermV, t: TermV)
    requires
        s is Fun,
        t is Fun,
        !s.same_head(t),
    ensures
        p.greater(s, t) || p.greater(t, s),
{
    if s.id() == t.id() && s.args().len() == t.args().len() {
        assert(s.predicate() != t.predicate());
        if s == truth() {
            assert(t.args() =~= Seq::empty());
        }
        if t == truth() {
            assert(s.args() =~= Seq::empty());
        }
    }
}

/// The precedence looks at the head symbol only.
pub proof fn lemma_precedence_head(p: Precedence, s: TermV, s2: TermV, t: TermV, t2: TermV)
    requires
        s.same_head(s2),
        t.same_head(t2),
    ensures
        p.greater(s, t) == p.greater(s2, t2),
{
    assert(s == truth() <==> s2 == truth()) by {
        if s == truth() {
            assert(s2.args() =~= Seq::empty());
        }
        if s2 == truth() {
            assert(s.args() =~= Seq::empty());
        }
    }
    assert(t == truth() <==> t2 == truth()) by {
        if t == truth() {
            assert(t2.args() =~= Seq::empty());
        }
        if t2 == truth() {
            assert(t.args() =~= Seq::empty());
        }
    }
}

} // verus!
