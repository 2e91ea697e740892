//! Simplify-reflect: a literal that a unit clause contradicts is deleted.
//!
//! A unit equation `l = r` contradicts a literal `a != b` where an instance
//! of the equation turns `a` into `b`: at one place `a` holds the instance
//! of one side and `b` that of the other, and the two are the same
//! elsewhere. A unit `l != r` contradicts a literal `a = b` that is an
//! instance of `l = r`.
use crate::clause::{Clause, ClauseV};
use crate::literal::{Literal, LiteralV};
use crate::matching::{agrees, lemma_apply_injective, match_into, match_term};
use crate::position::{replace_at, subterm_at, valid_position};
use crate::simplification::literal_deletion::lemma_holds_push;
use crate::semantics::{
    clause_holds, entails, eval, lemma_eval_apply, lemma_replace_eval, literal_holds, models,
    models_all, pull, Interpretation, Valuation,
};
use crate::term::{lemma_apply_agree, SubstV, Term, TermV};
use vstd::prelude::*;

verus! {

/// Whether the substitution sends `l` to `a` and `r` to `b`.
pub open spec fn instance_by(l: TermV, r: TermV, a: TermV, b: TermV, th: SubstV) -> bool {
    l.apply(th) == a && r.apply(th) == b
}

/// Whether one substitution sends `l` to `a` and `r` to `b`.
pub open spec fn pair_instance(l: TermV, r: TermV, a: TermV, b: TermV) -> bool {
    exists|th: SubstV| instance_by(l, r, a, b, th)
}

/// Whether `a` holds the instance of `l` at the place `p`, and `b` is `a`
/// with the instance of `r` there.
pub open spec fn turns_at(l: TermV, r: TermV, a: TermV, b: TermV, p: Seq<int>, th: SubstV) -> bool {
    &&& valid_position(a, p)
    &&& subterm_at(a, p) == l.apply(th)
    &&& b == replace_at(a, p, r.apply(th))
}

/// Whether an instance of the equation `l = r` turns `a` into `b`.
pub open spec fn turns(l: TermV, r: TermV, a: TermV, b: TermV) -> bool {
    exists|p: Seq<int>, th: SubstV| turns_at(l, r, a, b, p, th)
}

/// Checks whether one substitution sends `l` to `a` and `r` to `b`.
pub fn matches_pair(l: &Term, r: &Term, a: &Term, b: &Term) -> (found: bool)
    ensures
        found == pair_instance(l@, r@, a@, b@),
{
    match match_term(l, a) {
        None => {
            proof {
                assert forall|th: SubstV| !instance_by(l@, r@, a@, b@, th) by {
                    assert(l@.apply(th) != a@);
                }
            }
            false
        },
        Some(s) => {
            let mut s = s;
            let ghost first = s@;
            let found = match_into(r, b, &mut s);
            proof {
                if found {
                    assert forall|x: int| l@.occurs(x) implies TermV::Var(x).apply(s@)
                        == TermV::Var(x).apply(first) by {
                        assert(first.dom().contains(x));
                    }
                    lemma_apply_agree(l@, s@, first);
                    assert(instance_by(l@, r@, a@, b@, s@));
                } else {
                    assert forall|th: SubstV| !instance_by(l@, r@, a@, b@, th) by {
                        if l@.apply(th) == a@ {
                            assert forall|x: int| first.dom().contains(x) implies TermV::Var(
                                x,
                            ).apply(th) == first[x] by {
                                lemma_apply_injective(l@, th, first, x);
                            }
                            assert(agrees(th, first));
                            assert(r@.apply(th) != b@);
                        }
                    }
                }
            }
            found
        },
    }
}

/// Where an equation turns a term into another one below the root, the two
/// terms have the same head and differ in the argument on the way, which
/// the equation turns into its counterpart.
pub proof fn lemma_turns_below(l: TermV, r: TermV, a: TermV, b: TermV, p: Seq<int>, th: SubstV)
    requires
        turns_at(l, r, a, b, p, th),
        p.len() > 0,
    ensures
        a is Fun,
        b is Fun,
        a.id() == b.id(),
        a.predicate() == b.predicate(),
        a.args().len() == b.args().len(),
        0 <= p[0] < a.args().len(),
        forall|j: int| 0 <= j < a.args().len() && j != p[0] ==> a.args()[j] == b.args()[j],
        turns_at(l, r, a.args()[p[0]], b.args()[p[0]], p.drop_first(), th),
{
}

/// An argument that an equation turns into its counterpart makes the
/// equation turn the whole term, where the other arguments are the same.
pub proof fn lemma_turns_above(
    l: TermV,
    r: TermV,
    a: TermV,
    b: TermV,
    i: int,
    p: Seq<int>,
    th: SubstV,
)
    requires
        a is Fun,
        b is Fun,
        a.id() == b.id(),
        a.predicate() == b.predicate(),
        a.args().len() == b.args().len(),
        0 <= i < a.args().len(),
        forall|j: int| 0 <= j < a.args().len() && j != i ==> a.args()[j] == b.args()[j],
        turns_at(l, r, a.args()[i], b.args()[i], p, th),
    ensures
        turns_at(l, r, a, b, seq![i] + p, th),
{
    let q = seq![i] + p;
    assert(q[0] == i);
    assert(q.drop_first() =~= p);
    assert(b.args() =~= a.args().update(i, replace_at(a.args()[i], p, r.apply(th))));
}

/// Checks whether an instance of the equation `l = r` turns `a` into `b`,
/// which is another term.
pub fn turns_into(l: &Term, r: &Term, a: &Term, b: &Term) -> (found: bool)
    ensures
        found == (a@ != b@ && turns(l@, r@, a@, b@)),
    decreases a,
{
    if a.equals(b) {
        return false;
    }
    if matches_pair(l, r, a, b) {
        proof {
            let th = choose|th: SubstV| instance_by(l@, r@, a@, b@, th);
            assert(turns_at(l@, r@, a@, b@, Seq::empty(), th));
        }
        return true;
    }
    proof {
        assert forall|th: SubstV| !turns_at(l@, r@, a@, b@, Seq::empty(), th) by {
            if turns_at(l@, r@, a@, b@, Seq::empty(), th) {
                assert(instance_by(l@, r@, a@, b@, th));
            }
        }
    }
    if a.id < 0 || b.id < 0 || a.id != b.id || a.predicate != b.predicate || a.args.len()
        != b.args.len() {
        proof {
            assert forall|p: Seq<int>, th: SubstV| !turns_at(l@, r@, a@, b@, p, th) by {
                if turns_at(l@, r@, a@, b@, p, th) {
                    if p.len() > 0 {
                        lemma_turns_below(l@, r@, a@, b@, p, th);
                    } else {
                        assert(p =~= Seq::empty());
                    }
                }
            }
        }
        return false;
    }
    let n = a.args.len();
    let mut i: usize = 0;
    while i < n && a.args[i].equals(&b.args[i])
        invariant
            0 <= i <= n,
            n == a.args.len(),
            n == b.args.len(),
            forall|j: int| 0 <= j < i ==> a.args[j]@ == b.args[j]@,
        decreases n - i,
    {
        i += 1;
    }
    if i == n {
        proof {
            assert(a@.args() =~= b@.args());
        }
        return false;
    }
    let mut k: usize = i + 1;
    while k < n
        invariant
            i < k <= n,
            n == a.args.len(),
            n == b.args.len(),
            a.id >= 0,
            b.id >= 0,
            a.id == b.id,
            a.predicate == b.predicate,
            a.args[i as int]@ != b.args[i as int]@,
            forall|j: int| 0 <= j < k && j != i ==> a.args[j]@ == b.args[j]@,
            forall|th: SubstV| !turns_at(l@, r@, a@, b@, Seq::empty(), th),
        decreases n - k,
    {
        if !a.args[k].equals(&b.args[k]) {
            proof {
                assert forall|p: Seq<int>, th: SubstV| !turns_at(l@, r@, a@, b@, p, th) by {
                    if turns_at(l@, r@, a@, b@, p, th) {
                        if p.len() > 0 {
                            lemma_turns_below(l@, r@, a@, b@, p, th);
                            assert(a@.args()[i as int] == a.args[i as int]@);
                            assert(b@.args()[i as int] == b.args[i as int]@);
                            assert(a@.args()[k as int] == a.args[k as int]@);
                            assert(b@.args()[k as int] == b.args[k as int]@);
                        } else {
                            assert(p =~= Seq::empty());
                        }
                    }
                }
            }
            return false;
        }
        k += 1;
    }
    let found = turns_into(l, r, &a.args[i], &b.args[i]);
    proof {
        let x = a@.args()[i as int];
        let y = b@.args()[i as int];
        assert(x == a.args[i as int]@ && y == b.args[i as int]@);
        assert forall|j: int| 0 <= j < n && j != i implies a@.args()[j] == b@.args()[j] by {
            assert(a@.args()[j] == a.args[j]@ && b@.args()[j] == b.args[j]@);
        }
        if found {
            let (p, th) = choose|p: Seq<int>, th: SubstV| turns_at(l@, r@, x, y, p, th);
            lemma_turns_above(l@, r@, a@, b@, i as int, p, th);
        } else {
            assert forall|p: Seq<int>, th: SubstV| !turns_at(l@, r@, a@, b@, p, th) by {
                if turns_at(l@, r@, a@, b@, p, th) {
                    if p.len() > 0 {
                        lemma_turns_below(l@, r@, a@, b@, p, th);
                        assert(p[0] == i);
                        assert(turns_at(l@, r@, x, y, p.drop_first(), th));
                    } else {
                        assert(p =~= Seq::empty());
                    }
                }
            }
        }
    }
    found
}

/// Whether the unit clause `u` contradicts the literal: a unit equation a
/// disequation of two terms of which it turns one into the other, a unit
/// disequation an equation that is an instance of it.
pub open spec fn contradicts(u: ClauseV, lit: LiteralV) -> bool {
    &&& u.len() == 1
    &&& if u[0].positive {
        !lit.positive && lit.lhs != lit.rhs && (turns(u[0].lhs, u[0].rhs, lit.lhs, lit.rhs)
            || turns(u[0].rhs, u[0].lhs, lit.lhs, lit.rhs))
    } else {
        lit.positive && (pair_instance(u[0].lhs, u[0].rhs, lit.lhs, lit.rhs) || pair_instance(
            u[0].lhs,
            u[0].rhs,
            lit.rhs,
            lit.lhs,
        ))
    }
}

/// Whether some clause of `active` contradicts the literal.
pub open spec fn reflected(active: Seq<Clause>, lit: LiteralV) -> bool {
    exists|i: int| 0 <= i < active.len() && contradicts((#[trigger] active[i])@, lit)
}

/// The clause without the literals that a clause of `active` contradicts,
/// the others in their order.
pub open spec fn without_reflected(active: Seq<Clause>, c: ClauseV) -> ClauseV
    decreases c.len(),
{
    if c.len() == 0 {
        c
    } else if reflected(active, c.last()) {
        without_reflected(active, c.drop_last())
    } else {
        without_reflected(active, c.drop_last()).push(c.last())
    }
}

/// Checks whether the unit clause contradicts the literal.
pub fn contradicted(u: &Clause, lit: &Literal) -> (r: bool)
    ensures
        r == contradicts(u@, lit@),
{
    if u.literals.len() != 1 {
        return false;
    }
    let unit = &u.literals[0];
    if unit.is_positive() {
        lit.is_negative() && (turns_into(
            unit.get_lhs(),
            unit.get_rhs(),
            lit.get_lhs(),
            lit.get_rhs(),
        ) || turns_into(unit.get_rhs(), unit.get_lhs(), lit.get_lhs(), lit.get_rhs()))
    } else {
        lit.is_positive() && (matches_pair(
            unit.get_lhs(),
            unit.get_rhs(),
            lit.get_lhs(),
            lit.get_rhs(),
        ) || matches_pair(unit.get_lhs(), unit.get_rhs(), lit.get_rhs(), lit.get_lhs()))
    }
}

/// Checks whether some active clause contradicts the literal.
pub fn is_reflected(active: &Vec<Clause>, lit: &Literal) -> (r: bool)
    ensures
        r == reflected(active@, lit@),
{
    let n = active.len();
    let mut i: usize = 0;
    while i < n
        invariant
            0 <= i <= n,
            n == active@.len(),
            forall|k: int| 0 <= k < i ==> !contradicts((#[trigger] active@[k])@, lit@),
        decreases n - i,
    {
        if contradicted(&active[i], lit) {
            return true;
        }
        i += 1;
    }
    false
}

/// Deletes every literal that an active unit clause contradicts.
pub fn simplify_reflect(active: &Vec<Clause>, cl: &mut Clause)
    ensures
        final(cl)@ == without_reflected(active@, old(cl)@),
        final(cl).id == old(cl).id,
{
    let n = cl.literals.len();
    let mut kept: Vec<Literal> = Vec::new();
    let mut i: usize = 0;
    while i < n
        invariant
            0 <= i <= n,
            n == cl.literals.len(),
            cl@ == old(cl)@,
            cl.id == old(cl).id,
            crate::clause::literal_views(kept@) == without_reflected(active@, cl@.take(i as int)),
        decreases n - i,
    {
        proof {
            assert(cl@.take(i as int + 1).drop_last() =~= cl@.take(i as int));
            assert(cl@.take(i as int + 1).last() == cl@[i as int]);
        }
        let l = &cl.literals[i];
        if !is_reflected(active, l) {
            kept.push(l.clone());
            proof {
                assert(crate::clause::literal_views(kept@) =~= without_reflected(
                    active@,
                    cl@.take(i as int),
                ).push(cl@[i as int]));
            }
        }
        i += 1;
    }
    proof {
        assert(cl@.take(n as int) =~= cl@);
    }
    cl.literals = kept;
}

/// Where two terms have the same value under every assignment, a term has
/// the value of what an instance of their equation turns it into.
pub proof fn lemma_turns_equal(
    l: TermV,
    r: TermV,
    a: TermV,
    b: TermV,
    m: Interpretation,
    v: Valuation,
)
    requires
        turns(l, r, a, b),
        forall|w: Valuation| #[trigger] eval(l, m, w) == eval(r, m, w),
    ensures
        eval(a, m, v) == eval(b, m, v),
{
    let (p, th) = choose|p: Seq<int>, th: SubstV| turns_at(l, r, a, b, p, th);
    lemma_eval_apply(l, th, m, v);
    lemma_eval_apply(r, th, m, v);
    assert(eval(l, m, pull(th, m, v)) == eval(r, m, pull(th, m, v)));
    lemma_replace_eval(a, p, r.apply(th), m, v);
}

/// A literal that a unit clause contradicts holds nowhere in a model of
/// the unit clause.
pub proof fn lemma_contradicts(u: ClauseV, lit: LiteralV, m: Interpretation, v: Valuation)
    requires
        models(m, u),
        contradicts(u, lit),
    ensures
        !literal_holds(lit, m, v),
{
    assert forall|w: Valuation| literal_holds(u[0], m, w) by {
        assert(clause_holds(u, m, w));
    }
    if u[0].positive {
        assert forall|w: Valuation| #[trigger] eval(u[0].lhs, m, w) == eval(u[0].rhs, m, w) by {
            assert(literal_holds(u[0], m, w));
        }
        assert forall|w: Valuation| #[trigger] eval(u[0].rhs, m, w) == eval(u[0].lhs, m, w) by {
            assert(literal_holds(u[0], m, w));
        }
        if turns(u[0].lhs, u[0].rhs, lit.lhs, lit.rhs) {
            lemma_turns_equal(u[0].lhs, u[0].rhs, lit.lhs, lit.rhs, m, v);
        } else {
            lemma_turns_equal(u[0].rhs, u[0].lhs, lit.lhs, lit.rhs, m, v);
        }
    } else {
        let (a, b) = if pair_instance(u[0].lhs, u[0].rhs, lit.lhs, lit.rhs) {
            (lit.lhs, lit.rhs)
        } else {
            (lit.rhs, lit.lhs)
        };
        let th = choose|th: SubstV| instance_by(u[0].lhs, u[0].rhs, a, b, th);
        lemma_eval_apply(u[0].lhs, th, m, v);
        lemma_eval_apply(u[0].rhs, th, m, v);
        assert(literal_holds(u[0], m, pull(th, m, v)));
    }
}

/// In a model of the active clauses, deleting the literals that they
/// contradict changes nothing in where the clause holds.
pub proof fn lemma_without_reflected_holds(
    active: Seq<Clause>,
    c: ClauseV,
    m: Interpretation,
    v: Valuation,
)
    requires
        forall|i: int| 0 <= i < active.len() ==> models(m, (#[trigger] active[i])@),
    ensures
        clause_holds(without_reflected(active, c), m, v) == clause_holds(c, m, v),
    decreases c.len(),
{
    if c.len() > 0 {
        let r = c.drop_last();
        lemma_without_reflected_holds(active, r, m, v);
        lemma_holds_push(r, c.last(), m, v);
        assert(r.push(c.last()) =~= c);
        if reflected(active, c.last()) {
            let i = choose|i: int|
                0 <= i < active.len() && contradicts((#[trigger] active[i])@, c.last());
            lemma_contradicts(active[i]@, c.last(), m, v);
        } else {
            lemma_holds_push(without_reflected(active, r), c.last(), m, v);
        }
    }
}

/// Simplify-reflect is sound: the clause without the literals that the
/// active clauses contradict follows from what the clause and the active
/// clauses follow from.
pub proof fn lemma_reflect_sound(input: Seq<ClauseV>, active: Seq<Clause>, c: ClauseV)
    requires
        forall|i: int| 0 <= i < active.len() ==> entails(input, (#[trigger] active[i])@),
        entails(input, c),
    ensures
        entails(input, without_reflected(active, c)),
{
    let d = without_reflected(active, c);
    assert forall|m: Interpretation| #[trigger] models_all(m, input) implies models(m, d) by {
        assert forall|i: int| 0 <= i < active.len() implies models(m, (#[trigger] active[i])@) by {
            assert(entails(input, active[i]@));
        }
        assert forall|v: Valuation| #[trigger] clause_holds(d, m, v) by {
            assert(clause_holds(c, m, v));
            lemma_without_reflected_holds(active, c, m, v);
        }
    }
}

} // verus!
