//! Binary resolution: from two clauses with literals that a substitution
//! makes complementary, the clause of the other literals is inferred.
//!
//! The search is restricted to positive resolution: one of the two clauses
//! holds equations only.
use crate::clause::{apply_clause, Clause, ClauseV};
use crate::factoring::{
    factor, factor_places, is_factor, lemma_entails_factor, some_factor, unifiable,
};
use crate::literal::{Literal, LiteralV};
use crate::proof_search::entailment::{all_entailed, clause_views, lemma_entails_instance};
use crate::proof_search::steps::{forward_subsumed, subsumed_by_some};
use crate::renaming::{has_variables, rename_clause, renamed};
use crate::semantics::{
    clause_holds, entails, lemma_clause_apply, lemma_empty_clause, lemma_eval_apply,
    literal_holds, models, models_all, pull, unsatisfiable, Interpretation, Valuation,
};
use crate::simplification::literal_deletion::{
    delete_duplicates, lemma_holds_push, lemma_without_duplicates_holds, without_duplicates,
};
use crate::simplification::tautology_deletion::{is_tautology, trivial};
use crate::substitution::Substitution;
use crate::term::SubstV;
use crate::unification::{literal_mgu, literal_unifier, unify_literals};
use vstd::prelude::*;

verus! {

/// The clause without the literals that denote the literal `l`.
pub open spec fn without_same(c: ClauseV, l: LiteralV) -> ClauseV
    decreases c.len(),
{
    if c.len() == 0 {
        c
    } else if c.last().same(l) {
        without_same(c.drop_last(), l)
    } else {
        without_same(c.drop_last(), l).push(c.last())
    }
}

/// The resolvent of `c1` and `c2` on the literals `p` and `x` under the
/// substitution `th`: the instances of the other literals of both, without
/// repetitions.
pub open spec fn resolvent_of(c1: ClauseV, p: LiteralV, c2: ClauseV, x: LiteralV, th: SubstV) -> ClauseV {
    without_duplicates(
        apply_clause(without_same(c1, p), th) + apply_clause(without_same(c2, x), th),
    )
}

/// Whether `n` is a resolvent of `c1` and `c2` on `p` and the `j`-th
/// literal of `c2`, under the most general unifier of the negation of `p`
/// and that literal.
pub open spec fn is_resolvent(c1: ClauseV, p: LiteralV, c2: ClauseV, j: int, n: ClauseV) -> bool {
    &&& 0 <= j < c2.len()
    &&& exists|th: SubstV|
        literal_mgu(th, p.negate(), c2[j]) && n == #[trigger] resolvent_of(
            c1,
            p,
            c2,
            c2[j],
            th,
        )
}

/// Whether the negation of `p` and the literal `x` can be made the same.
pub open spec fn complementary(p: LiteralV, x: LiteralV) -> bool {
    exists|th: SubstV| literal_unifier(th, p.negate(), x)
}

/// Whether the clause `n` needs no place of its own among the clauses: it
/// is a tautology, or a clause of `used` or of `unused` subsumes it, or it
/// is one of `unused`.
pub open spec fn settled(used: Seq<Clause>, unused: Seq<Clause>, n: ClauseV) -> bool {
    is_tautology(n) || subsumed_by_some(used, n) || subsumed_by_some(unused, n) || exists|k: int|
        0 <= k < unused.len() && (#[trigger] unused[k])@ == n
}

/// A clause holds where one of two parts of it holds.
pub proof fn lemma_holds_concat(a: ClauseV, b: ClauseV, m: Interpretation, v: Valuation)
    ensures
        clause_holds(a + b, m, v) == (clause_holds(a, m, v) || clause_holds(b, m, v)),
{
    let c = a + b;
    if clause_holds(c, m, v) {
        let i = choose|i: int| 0 <= i < c.len() && literal_holds(#[trigger] c[i], m, v);
        if i < a.len() {
            assert(c[i] == a[i]);
        } else {
            assert(c[i] == b[i - a.len()]);
        }
    }
    if clause_holds(a, m, v) {
        let i = choose|i: int| 0 <= i < a.len() && literal_holds(#[trigger] a[i], m, v);
        assert(c[i] == a[i]);
    }
    if clause_holds(b, m, v) {
        let i = choose|i: int| 0 <= i < b.len() && literal_holds(#[trigger] b[i], m, v);
        assert(c[i + a.len()] == b[i]);
    }
}

/// A clause that holds still holds without the literals that denote a
/// literal that does not hold.
pub proof fn lemma_without_same_holds(c: ClauseV, l: LiteralV, m: Interpretation, v: Valuation)
    requires
        clause_holds(c, m, v),
        !literal_holds(l, m, v),
    ensures
        clause_holds(without_same(c, l), m, v),
    decreases c.len(),
{
    let r = c.drop_last();
    assert(c.len() > 0);
    lemma_holds_push(r, c.last(), m, v);
    assert(r.push(c.last()) =~= c);
    if c.last().same(l) {
        assert(!literal_holds(c.last(), m, v));
        lemma_without_same_holds(r, l, m, v);
    } else {
        lemma_holds_push(without_same(r, l), c.last(), m, v);
        if clause_holds(r, m, v) {
            lemma_without_same_holds(r, l, m, v);
        }
    }
}

/// Binary resolution is sound: a model of both premises is a model of
/// each of their resolvents.
pub proof fn lemma_resolvent_sound(
    m: Interpretation,
    c1: ClauseV,
    p: LiteralV,
    c2: ClauseV,
    x: LiteralV,
    th: SubstV,
)
    requires
        models(m, c1),
        models(m, c2),
        literal_unifier(th, p.negate(), x),
    ensures
        models(m, resolvent_of(c1, p, c2, x, th)),
{
    let a = without_same(c1, p);
    let b = without_same(c2, x);
    assert forall|v: Valuation| #[trigger]
        clause_holds(resolvent_of(c1, p, c2, x, th), m, v) by {
        let w = pull(th, m, v);
        assert(clause_holds(c1, m, w));
        assert(clause_holds(c2, m, w));
        lemma_eval_apply(p.lhs, th, m, v);
        lemma_eval_apply(p.rhs, th, m, v);
        lemma_eval_apply(x.lhs, th, m, v);
        lemma_eval_apply(x.rhs, th, m, v);
        assert(literal_holds(x, m, w) == !literal_holds(p, m, w));
        if literal_holds(p, m, w) {
            lemma_without_same_holds(c2, x, m, w);
        } else {
            lemma_without_same_holds(c1, p, m, w);
        }
        lemma_clause_apply(a, th, m, v);
        lemma_clause_apply(b, th, m, v);
        lemma_holds_concat(apply_clause(a, th), apply_clause(b, th), m, v);
        lemma_without_duplicates_holds(apply_clause(a, th) + apply_clause(b, th), m, v);
    }
}

/// A resolvent follows from what both premises follow from.
pub proof fn lemma_entails_resolvent(
    input: Seq<ClauseV>,
    c1: ClauseV,
    p: LiteralV,
    c2: ClauseV,
    j: int,
    n: ClauseV,
)
    requires
        entails(input, c1),
        entails(input, c2),
        is_resolvent(c1, p, c2, j, n),
    ensures
        entails(input, n),
{
    let th = choose|th: SubstV|
        literal_mgu(th, p.negate(), c2[j]) && n == #[trigger] resolvent_of(
            c1,
            p,
            c2,
            c2[j],
            th,
        );
    assert forall|m: Interpretation| #[trigger] models_all(m, input) implies models(m, n) by {
        lemma_resolvent_sound(m, c1, p, c2, c2[j], th);
    }
}

/// The instances of the literals of a clause that do not denote `l`.
fn rest_instance(cl: &Clause, l: &Literal, theta: &Substitution) -> (r: Clause)
    ensures
        r@ == apply_clause(without_same(cl@, l@), theta@),
{
    let n = cl.size();
    let mut out = Clause::new();
    let mut i: usize = 0;
    while i < n
        invariant
            0 <= i <= n,
            n == cl@.len(),
            out@ == apply_clause(without_same(cl@.take(i as int), l@), theta@),
        decreases n - i,
    {
        proof {
            assert(cl@.take(i as int + 1).drop_last() =~= cl@.take(i as int));
            assert(cl@.take(i as int + 1).last() == cl@[i as int]);
        }
        if !cl.at(i).equals(l) {
            let ghost before = out@;
            out.add_literal(cl.at(i).apply(theta));
            proof {
                assert(out@ =~= apply_clause(
                    without_same(cl@.take(i as int), l@).push(cl@[i as int]),
                    theta@,
                ));
            }
        }
        i += 1;
    }
    proof {
        assert(cl@.take(n as int) =~= cl@);
    }
    out
}

/// Whether the clause `n` is left out: it is a tautology, or a clause of
/// `used` or of `unused` subsumes it.
pub open spec fn redundant(used: Seq<Clause>, unused: Seq<Clause>, n: ClauseV) -> bool {
    is_tautology(n) || subsumed_by_some(used, n) || subsumed_by_some(unused, n)
}

/// Whether a resolvent of `c1` and `c2` on `p` and the `j`-th literal of
/// `c2` was left out.
pub open spec fn resolvent_left_out(
    c1: ClauseV,
    p: LiteralV,
    c2: ClauseV,
    j: int,
    used: Seq<Clause>,
    unused: Seq<Clause>,
) -> bool {
    exists|n: ClauseV| is_resolvent(c1, p, c2, j, n) && redundant(used, unused, n)
}

/// Whether the clauses of `unused` from place `from` on are the resolvents
/// of `c1` and `c2` on `p` and the literals of `c2` at the places `idx`,
/// one for each place and in the order of the places: each was, when it
/// was added, no tautology and subsumed by no used clause and by no unused
/// clause before it. At every other place below `upto` the literal is not
/// complementary to `p`, or a resolvent was left out.
pub open spec fn resolvent_places(
    c1: ClauseV,
    p: LiteralV,
    c2: ClauseV,
    used: Seq<Clause>,
    unused: Seq<Clause>,
    from: int,
    idx: Seq<int>,
    upto: int,
) -> bool {
    &&& unused.len() == from + idx.len()
    &&& forall|k: int|
        0 <= k < idx.len() ==> 0 <= #[trigger] idx[k] < upto && is_resolvent(
            c1,
            p,
            c2,
            idx[k],
            unused[from + k]@,
        ) && !redundant(used, unused.take(from + k), unused[from + k]@)
    &&& forall|k: int, l: int| 0 <= k < l < idx.len() ==> #[trigger] idx[k] < #[trigger] idx[l]
    &&& forall|j: int|
        0 <= j < upto && !idx.contains(j) ==> !complementary(p, #[trigger] c2[j])
            || resolvent_left_out(c1, p, c2, j, used, unused)
}

/// A clause that more clauses subsume with fewer unused clauses is
/// subsumed with more.
pub proof fn lemma_redundant_grows(used: Seq<Clause>, before: Seq<Clause>, after: Seq<Clause>)
    requires
        before.len() <= after.len(),
        forall|k: int| 0 <= k < before.len() ==> after[k] == before[k],
    ensures
        forall|n: ClauseV| #[trigger] redundant(used, before, n) ==> redundant(used, after, n),
{
    assert forall|n: ClauseV| #[trigger] redundant(used, before, n) implies redundant(
        used,
        after,
        n,
    ) by {
        if subsumed_by_some(before, n) {
            let i = choose|i: int|
                0 <= i < before.len() && crate::simplification::subsumption::subsumes_spec(
                    (#[trigger] before[i])@,
                    n,
                );
            assert(after[i] == before[i]);
            assert(subsumed_by_some(after, n));
        }
    }
}

/// Adds the resolvents of `cl1` and `cl2` on the literal `p` of `cl1` to
/// the unused clauses, but for the tautologies and for those that a used
/// or an unused clause subsumes, in the order of the literals of `cl2`.
///
/// Each clause that is added is a resolvent on `p` and a literal of `cl2`,
/// and for each literal of `cl2` that is complementary to `p` a resolvent
/// was added or needed no place of its own.
pub fn add_resolvents(
    cl1: &Clause,
    cl2: &Clause,
    p: &Literal,
    used: &Vec<Clause>,
    unused: &mut Vec<Clause>,
)
    ensures
        final(unused)@.len() >= old(unused)@.len(),
        forall|k: int| 0 <= k < old(unused)@.len() ==> final(unused)@[k] == old(unused)@[k],
        forall|k: int|
            old(unused)@.len() <= k < final(unused)@.len() ==> !is_tautology(
                (#[trigger] final(unused)@[k])@,
            ) && exists|j: int| is_resolvent(cl1@, p@, cl2@, j, final(unused)@[k]@),
        forall|j: int|
            0 <= j < cl2@.len() && complementary(p@, #[trigger] cl2@[j]) ==> exists|n: ClauseV|
                is_resolvent(cl1@, p@, cl2@, j, n) && settled(used@, final(unused)@, n),
        exists|idx: Seq<int>| #[trigger]
            resolvent_places(
                cl1@,
                p@,
                cl2@,
                used@,
                final(unused)@,
                old(unused)@.len() as int,
                idx,
                cl2@.len() as int,
            ),
{
    let neg_p = p.negate();
    let n2 = cl2.size();
    let ghost start = unused@.len() as int;
    let ghost mut idx: Seq<int> = Seq::empty();
    let mut j: usize = 0;
    while j < n2
        invariant
            0 <= j <= n2,
            n2 == cl2@.len(),
            neg_p@ == p@.negate(),
            start == old(unused)@.len(),
            resolvent_places(cl1@, p@, cl2@, used@, unused@, start, idx, j as int),
            unused@.len() >= old(unused)@.len(),
            forall|k: int| 0 <= k < old(unused)@.len() ==> unused@[k] == old(unused)@[k],
            forall|i: int|
                0 <= i < j && complementary(p@, #[trigger] cl2@[i]) ==> exists|n: ClauseV|
                    is_resolvent(cl1@, p@, cl2@, i, n) && settled(used@, unused@, n),
        decreases n2 - j,
    {
        let x = cl2.at(j);
        let ghost before = unused@;
        let ghost places = idx;
        let ghost mut left_out = false;
        match unify_literals(&neg_p, x) {
            Ok(theta) => {
                let mut r = rest_instance(cl1, p, &theta);
                let other = rest_instance(cl2, x, &theta);
                r.add_literals(other);
                delete_duplicates(&mut r);
                let ghost n = r@;
                proof {
                    assert(n == resolvent_of(cl1@, p@, cl2@, cl2@[j as int], theta@));
                    assert(is_resolvent(cl1@, p@, cl2@, j as int, n));
                }
                if !trivial(&r) && !forward_subsumed(used, &r) && !forward_subsumed(unused, &r) {
                    unused.push(r);
                    proof {
                        idx = places.push(j as int);
                        assert(unused@.take(before.len() as int) =~= before);
                        assert(unused@[before.len() as int]@ == n);
                    }
                }
                proof {
                    if idx.len() == places.len() {
                        assert(redundant(used@, unused@, n));
                        assert(resolvent_left_out(cl1@, p@, cl2@, j as int, used@, unused@));
                    }
                    lemma_settled_grows(used@, before, unused@);
                    assert(settled(used@, unused@, n)) by {
                        if !is_tautology(n) && !subsumed_by_some(used@, n) && !subsumed_by_some(
                            before,
                            n,
                        ) {
                            assert(unused@[before.len() as int]@ == n);
                        } else if subsumed_by_some(before, n) {
                            assert(settled(used@, before, n));
                        }
                    }
                }
            },
            Err(_) => {
                proof {
                    assert(!complementary(p@, cl2@[j as int]));
                }
            },
        }
        proof {
            lemma_redundant_grows(used@, before, unused@);
            assert forall|k: int| 0 <= k < idx.len() implies 0 <= #[trigger] idx[k] < j + 1
                && is_resolvent(cl1@, p@, cl2@, idx[k], unused@[start + k]@) && !redundant(
                used@,
                unused@.take(start + k),
                unused@[start + k]@,
            ) by {
                if k < places.len() {
                    assert(idx[k] == places[k]);
                    assert(unused@[start + k] == before[start + k]);
                    assert(unused@.take(start + k) =~= before.take(start + k));
                } else {
                    assert(idx[k] == j);
                    assert(unused@.take(start + k) =~= before);
                }
            }
            assert forall|k: int, l: int| 0 <= k < l < idx.len() implies #[trigger] idx[k]
                < #[trigger] idx[l] by {
                assert(idx[k] == places[k]);
                if l < places.len() {
                    assert(idx[l] == places[l]);
                }
            }
            assert forall|i: int| 0 <= i < j + 1 && !idx.contains(i) implies !complementary(
                p@,
                #[trigger] cl2@[i],
            ) || resolvent_left_out(cl1@, p@, cl2@, i, used@, unused@) by {
                if i < j {
                    if places.contains(i) {
                        let k = choose|k: int| 0 <= k < places.len() && places[k] == i;
                        assert(idx[k] == i);
                    }
                    if complementary(p@, cl2@[i]) {
                        assert(resolvent_left_out(cl1@, p@, cl2@, i, used@, before));
                        let n = choose|n: ClauseV|
                            is_resolvent(cl1@, p@, cl2@, i, n) && redundant(used@, before, n);
                        assert(redundant(used@, unused@, n));
                    }
                } else {
                    if idx.len() > places.len() {
                        assert(idx[places.len() as int] == i);
                    }
                }
            }
        }
        j += 1;
    }
    proof {
        assert forall|k: int| old(unused)@.len() <= k < unused@.len() implies !is_tautology(
            (#[trigger] unused@[k])@,
        ) && exists|i: int| is_resolvent(cl1@, p@, cl2@, i, unused@[k]@) by {
            let x = k - start;
            assert(0 <= x < idx.len());
            let j = idx[x];
            assert(unused@[start + x] == unused@[k]);
            assert(is_resolvent(cl1@, p@, cl2@, j, unused@[k]@));
            assert(!redundant(used@, unused@.take(start + x), unused@[k]@));
            assert(!is_tautology(unused@[k]@));
        }
    }
}

/// A clause that needed no place of its own needs none when more clauses
/// are unused.
pub proof fn lemma_settled_grows(used: Seq<Clause>, before: Seq<Clause>, after: Seq<Clause>)
    requires
        before.len() <= after.len(),
        forall|k: int| 0 <= k < before.len() ==> after[k] == before[k],
    ensures
        forall|n: ClauseV| #[trigger] settled(used, before, n) ==> settled(used, after, n),
{
    assert forall|n: ClauseV| #[trigger] settled(used, before, n) implies settled(
        used,
        after,
        n,
    ) by {
        if subsumed_by_some(before, n) {
            let i = choose|i: int|
                0 <= i < before.len() && crate::simplification::subsumption::subsumes_spec(
                    (#[trigger] before[i])@,
                    n,
                );
            assert(after[i] == before[i]);
            assert(subsumed_by_some(after, n));
        } else if exists|k: int| 0 <= k < before.len() && (#[trigger] before[k])@ == n {
            let k = choose|k: int| 0 <= k < before.len() && (#[trigger] before[k])@ == n;
            assert(after[k] == before[k]);
        }
    }
}

/// Whether the unused clauses from place `a` up to place `b` are the
/// resolvents of `c1` and `c2` on the literal `p` of `c1` that were not
/// left out, in the order of the literals of `c2`.
pub open spec fn resolvent_segment(
    c1: ClauseV,
    p: LiteralV,
    c2: ClauseV,
    used: Seq<Clause>,
    unused: Seq<Clause>,
    a: int,
    b: int,
) -> bool {
    &&& 0 <= a <= b <= unused.len()
    &&& exists|idx: Seq<int>| #[trigger]
        resolvent_places(c1, p, c2, used, unused.take(b), a, idx, c2.len() as int)
}

/// Whether the unused clauses from place `a` up to place `b` are what
/// resolving `c1` with `c2` added: nothing where neither holds equations
/// only; else, for each literal of `c1` in turn, the resolvents on it that
/// were not left out. `cuts` holds the place where those for each literal
/// begin.
pub open spec fn clause_segment(
    c1: ClauseV,
    c2: ClauseV,
    used: Seq<Clause>,
    unused: Seq<Clause>,
    a: int,
    b: int,
    cuts: Seq<int>,
) -> bool {
    if !(positive_clause(c1) || positive_clause(c2)) {
        0 <= a == b <= unused.len()
    } else {
        &&& cuts.len() == c1.len() + 1
        &&& cuts[0] == a
        &&& cuts[c1.len() as int] == b
        &&& forall|i: int|
            0 <= i < c1.len() ==> resolvent_segment(
                c1,
                #[trigger] c1[i],
                c2,
                used,
                unused,
                cuts[i],
                cuts[i + 1],
            )
    }
}

/// A segment of the unused clauses stays what it is when more clauses
/// are unused.
pub proof fn lemma_resolvent_segment_grows(
    c1: ClauseV,
    p: LiteralV,
    c2: ClauseV,
    used: Seq<Clause>,
    before: Seq<Clause>,
    after: Seq<Clause>,
    a: int,
    b: int,
)
    requires
        resolvent_segment(c1, p, c2, used, before, a, b),
        before.len() <= after.len(),
        forall|k: int| 0 <= k < before.len() ==> after[k] == before[k],
    ensures
        resolvent_segment(c1, p, c2, used, after, a, b),
{
    assert(after.take(b) =~= before.take(b));
}

/// What resolving two clauses added stays what it is when more clauses
/// are unused.
pub proof fn lemma_clause_segment_grows(
    c1: ClauseV,
    c2: ClauseV,
    used: Seq<Clause>,
    before: Seq<Clause>,
    after: Seq<Clause>,
    a: int,
    b: int,
    cuts: Seq<int>,
)
    requires
        clause_segment(c1, c2, used, before, a, b, cuts),
        before.len() <= after.len(),
        forall|k: int| 0 <= k < before.len() ==> after[k] == before[k],
    ensures
        clause_segment(c1, c2, used, after, a, b, cuts),
{
    if positive_clause(c1) || positive_clause(c2) {
        assert forall|i: int| 0 <= i < c1.len() implies resolvent_segment(
            c1,
            #[trigger] c1[i],
            c2,
            used,
            after,
            cuts[i],
            cuts[i + 1],
        ) by {
            lemma_resolvent_segment_grows(c1, c1[i], c2, used, before, after, cuts[i], cuts[i + 1]);
        }
    }
}

/// Whether the unused clauses from place `from` on are exactly what a
/// round added for the clause `c`: for each used clause in turn what
/// resolving `c` with it added, and then the factors of `c`, one for each
/// pair of literals that can be made the same, in the order of the pairs.
/// `cuts` holds the place where the clauses for each used clause begin,
/// and `inner` for each used clause the places where those for each
/// literal of `c` begin.
pub open spec fn round_segments(
    c: ClauseV,
    used: Seq<Clause>,
    unused: Seq<Clause>,
    from: int,
    cuts: Seq<int>,
    inner: Seq<Seq<int>>,
) -> bool {
    &&& cuts.len() == used.len() + 1
    &&& inner.len() == used.len()
    &&& cuts[0] == from
    &&& forall|j: int|
        0 <= j < used.len() ==> clause_segment(
            c,
            (#[trigger] used[j])@,
            used,
            unused,
            cuts[j],
            cuts[j + 1],
            inner[j],
        )
    &&& exists|idx: Seq<(int, int)>| #[trigger]
        factor_places(c, unused, cuts[used.len() as int], idx, c.len() as int, 0)
}

/// Whether every literal of the clause is an equation.
pub open spec fn positive_clause(c: ClauseV) -> bool {
    forall|i: int| 0 <= i < c.len() ==> (#[trigger] c[i]).positive
}

/// Checks whether every literal of the clause is an equation.
pub fn all_positive(cl: &Clause) -> (r: bool)
    ensures
        r == positive_clause(cl@),
{
    let n = cl.size();
    let mut i: usize = 0;
    while i < n
        invariant
            0 <= i <= n,
            n == cl@.len(),
            forall|k: int| 0 <= k < i ==> (#[trigger] cl@[k]).positive,
        decreases n - i,
    {
        if !cl.at(i).is_positive() {
            return false;
        }
        i += 1;
    }
    true
}

/// Adds the resolvents of two clauses to the unused clauses, where one of
/// the two holds equations only; else nothing is added. The resolvents
/// are most general where the two clauses have no variable in common.
///
/// Each clause that is added is a resolvent of the two, and for each pair
/// of complementary literals a resolvent was added or needed no place of
/// its own.
pub fn resolve_clauses(
    cl1: &Clause,
    cl2: &Clause,
    used: &Vec<Clause>,
    unused: &mut Vec<Clause>,
)
    ensures
        final(unused)@.len() >= old(unused)@.len(),
        forall|k: int| 0 <= k < old(unused)@.len() ==> final(unused)@[k] == old(unused)@[k],
        !(positive_clause(cl1@) || positive_clause(cl2@)) ==> final(unused)@ == old(unused)@,
        forall|k: int|
            old(unused)@.len() <= k < final(unused)@.len() ==> !is_tautology(
                (#[trigger] final(unused)@[k])@,
            ) && exists|i: int, j: int|
                0 <= i < cl1@.len() && is_resolvent(cl1@, cl1@[i], cl2@, j, final(unused)@[k]@),
        positive_clause(cl1@) || positive_clause(cl2@) ==> forall|i: int, j: int|
            0 <= i < cl1@.len() && 0 <= j < cl2@.len() && complementary(
                #[trigger] cl1@[i],
                #[trigger] cl2@[j],
            ) ==> exists|n: ClauseV|
                is_resolvent(cl1@, cl1@[i], cl2@, j, n) && settled(used@, final(unused)@, n),
        clause_resolved(cl1@, cl2@, used@, final(unused)@),
        forall|k: int|
            old(unused)@.len() <= k < final(unused)@.len() ==> !is_tautology(
                (#[trigger] final(unused)@[k])@,
            ) && from_pair(cl1@, cl2@, final(unused)@[k]@),
        exists|cuts: Seq<int>| #[trigger]
            clause_segment(
                cl1@,
                cl2@,
                used@,
                final(unused)@,
                old(unused)@.len() as int,
                final(unused)@.len() as int,
                cuts,
            ),
{
    if !(all_positive(cl1) || all_positive(cl2)) {
        proof {
            assert(clause_segment(
                cl1@,
                cl2@,
                used@,
                unused@,
                unused@.len() as int,
                unused@.len() as int,
                Seq::empty(),
            ));
        }
        return ;
    }
    let n1 = cl1.size();
    let ghost start = unused@.len() as int;
    let ghost mut cuts: Seq<int> = seq![start];
    let mut i: usize = 0;
    while i < n1
        invariant
            0 <= i <= n1,
            n1 == cl1@.len(),
            start == old(unused)@.len(),
            cuts.len() == i + 1,
            cuts[0] == start,
            cuts[i as int] == unused@.len(),
            forall|a: int|
                0 <= a < i ==> resolvent_segment(
                    cl1@,
                    #[trigger] cl1@[a],
                    cl2@,
                    used@,
                    unused@,
                    cuts[a],
                    cuts[a + 1],
                ),
            unused@.len() >= old(unused)@.len(),
            forall|k: int| 0 <= k < old(unused)@.len() ==> unused@[k] == old(unused)@[k],
            forall|k: int|
                old(unused)@.len() <= k < unused@.len() ==> !is_tautology((#[trigger] unused@[k])@)
                    && exists|a: int, j: int|
                    0 <= a < cl1@.len() && is_resolvent(cl1@, cl1@[a], cl2@, j, unused@[k]@),
            forall|a: int, j: int|
                0 <= a < i && 0 <= j < cl2@.len() && complementary(
                    #[trigger] cl1@[a],
                    #[trigger] cl2@[j],
                ) ==> exists|n: ClauseV|
                    is_resolvent(cl1@, cl1@[a], cl2@, j, n) && settled(used@, unused@, n),
        decreases n1 - i,
    {
        let ghost before = unused@;
        let ghost cuts0 = cuts;
        add_resolvents(cl1, cl2, cl1.at(i), used, unused);
        proof {
            cuts = cuts0.push(unused@.len() as int);
            assert(unused@.take(unused@.len() as int) =~= unused@);
            assert(resolvent_segment(
                cl1@,
                cl1@[i as int],
                cl2@,
                used@,
                unused@,
                before.len() as int,
                unused@.len() as int,
            ));
            assert forall|a: int| 0 <= a < i + 1 implies resolvent_segment(
                cl1@,
                #[trigger] cl1@[a],
                cl2@,
                used@,
                unused@,
                cuts[a],
                cuts[a + 1],
            ) by {
                if a < i {
                    assert(cuts[a] == cuts0[a] && cuts[a + 1] == cuts0[a + 1]);
                    lemma_resolvent_segment_grows(
                        cl1@,
                        cl1@[a],
                        cl2@,
                        used@,
                        before,
                        unused@,
                        cuts0[a],
                        cuts0[a + 1],
                    );
                }
            }
            lemma_settled_grows(used@, before, unused@);
            assert forall|k: int| old(unused)@.len() <= k < unused@.len() implies !is_tautology(
                (#[trigger] unused@[k])@,
            ) && exists|a: int, j: int|
                0 <= a < cl1@.len() && is_resolvent(cl1@, cl1@[a], cl2@, j, unused@[k]@) by {
                if k < before.len() {
                    assert(unused@[k] == before[k]);
                } else {
                    let j = choose|j: int|
                        is_resolvent(cl1@, cl1@[i as int], cl2@, j, unused@[k]@);
                    assert(is_resolvent(cl1@, cl1@[i as int], cl2@, j, unused@[k]@));
                }
            }
            assert forall|a: int, j: int|
                0 <= a < i + 1 && 0 <= j < cl2@.len() && complementary(
                    #[trigger] cl1@[a],
                    #[trigger] cl2@[j],
                ) implies exists|n: ClauseV|
                is_resolvent(cl1@, cl1@[a], cl2@, j, n) && settled(used@, unused@, n) by {
                if a < i {
                    let n = choose|n: ClauseV|
                        is_resolvent(cl1@, cl1@[a], cl2@, j, n) && settled(used@, before, n);
                    assert(settled(used@, unused@, n));
                }
            }
        }
        i += 1;
    }
    proof {
        assert(clause_segment(
            cl1@,
            cl2@,
            used@,
            unused@,
            start,
            unused@.len() as int,
            cuts,
        ));
        assert forall|a: int, b: int|
            0 <= a < cl1@.len() && 0 <= b < cl2@.len() && complementary(
                #[trigger] cl1@[a],
                #[trigger] cl2@[b],
            ) implies pair_settled(cl1@, cl2@, used@, unused@, a, b) by {
            let n = choose|n: ClauseV|
                is_resolvent(cl1@, cl1@[a], cl2@, b, n) && settled(used@, unused@, n);
            assert(is_resolvent(cl1@, cl1@[a], cl2@, b, n) && settled(used@, unused@, n));
        }
        assert forall|k: int| old(unused)@.len() <= k < unused@.len() implies from_pair(
            cl1@,
            cl2@,
            (#[trigger] unused@[k])@,
        ) by {
            let (a, b) = choose|a: int, b: int|
                0 <= a < cl1@.len() && is_resolvent(cl1@, cl1@[a], cl2@, b, unused@[k]@);
            assert(0 <= a < cl1@.len() && is_resolvent(cl1@, cl1@[a], cl2@, b, unused@[k]@));
        }
    }
}

/// Whether `n` is a resolvent of the clauses `c` and `d` on a literal of
/// `c` and a literal of `d`.
pub open spec fn from_pair(c: ClauseV, d: ClauseV, n: ClauseV) -> bool {
    exists|a: int, b: int| 0 <= a < c.len() && is_resolvent(c, c[a], d, b, n)
}

/// Whether a resolvent of `c` and `d` on their literals at the places `a`
/// and `b` needs no place of its own among the clauses.
pub open spec fn pair_settled(
    c: ClauseV,
    d: ClauseV,
    used: Seq<Clause>,
    unused: Seq<Clause>,
    a: int,
    b: int,
) -> bool {
    exists|n: ClauseV| is_resolvent(c, c[a], d, b, n) && settled(used, unused, n)
}

/// Whether the clause `c` was resolved with the clause `d`: where one of
/// the two holds equations only, each pair of complementary literals has a
/// resolvent that needs no place of its own.
pub open spec fn clause_resolved(c: ClauseV, d: ClauseV, used: Seq<Clause>, unused: Seq<Clause>) -> bool {
    positive_clause(c) || positive_clause(d) ==> forall|a: int, b: int|
        0 <= a < c.len() && 0 <= b < d.len() && complementary(#[trigger] c[a], #[trigger] d[b])
            ==> pair_settled(c, d, used, unused, a, b)
}

/// A clause that was resolved with another stays so when more clauses
/// are unused.
pub proof fn lemma_clause_resolved_grows(
    c: ClauseV,
    d: ClauseV,
    used: Seq<Clause>,
    before: Seq<Clause>,
    after: Seq<Clause>,
)
    requires
        clause_resolved(c, d, used, before),
        before.len() <= after.len(),
        forall|k: int| 0 <= k < before.len() ==> after[k] == before[k],
    ensures
        clause_resolved(c, d, used, after),
{
    lemma_settled_grows(used, before, after);
    if positive_clause(c) || positive_clause(d) {
        assert forall|a: int, b: int|
            0 <= a < c.len() && 0 <= b < d.len() && complementary(
                #[trigger] c[a],
                #[trigger] d[b],
            ) implies pair_settled(c, d, used, after, a, b) by {
            assert(pair_settled(c, d, used, before, a, b));
            let n = choose|n: ClauseV| is_resolvent(c, c[a], d, b, n) && settled(used, before, n);
            assert(settled(used, after, n));
        }
    }
}

/// Whether the `i`-th clause is the first of the shortest clauses.
pub open spec fn first_shortest(clauses: Seq<Clause>, i: int) -> bool {
    &&& 0 <= i < clauses.len()
    &&& forall|k: int| 0 <= k < i ==> (#[trigger] clauses[k])@.len() > clauses[i]@.len()
    &&& forall|k: int| i <= k < clauses.len() ==> (#[trigger] clauses[k])@.len() >= clauses[i]@.len()
}

/// Picks and removes the best of the unused clauses: the first of the
/// shortest ones. The last clause takes its place.
pub fn pick_clause(unused: &mut Vec<Clause>) -> (best: Clause)
    requires
        old(unused)@.len() > 0,
    ensures
        exists|i: int|
            {
                &&& #[trigger] first_shortest(old(unused)@, i)
                &&& best == old(unused)@[i]
                &&& final(unused)@ == old(unused)@.update(i, old(unused)@.last()).drop_last()
            },
{
    let n = unused.len();
    let mut best: usize = 0;
    let mut size = unused[0].size();
    let mut i: usize = 1;
    while i < n
        invariant
            1 <= i <= n,
            n == unused@.len(),
            *unused == *old(unused),
            0 <= best < i,
            size == unused@[best as int]@.len(),
            forall|k: int| 0 <= k < best ==> (#[trigger] unused@[k])@.len() > size,
            forall|k: int| best <= k < i ==> (#[trigger] unused@[k])@.len() >= size,
        decreases n - i,
    {
        if unused[i].size() < size {
            best = i;
            size = unused[i].size();
        }
        i += 1;
    }
    let chosen = unused.swap_remove(best);
    proof {
        assert(first_shortest(old(unused)@, best as int));
        assert(unused@ =~= old(unused)@.update(best as int, old(unused)@.last()).drop_last());
    }
    chosen
}

/// How a search by positive resolution ended.
#[derive(Debug, Clone, Copy, PartialEq, Eq)]
pub enum Outcome {
    /// The empty clause was picked: the clauses have no model.
    Refuted,
    /// No unused clause is left.
    Exhausted,
    /// The rounds or the variables ran out.
    GivenUp,
}

/// Searches for a refutation by positive resolution. In each of at most
/// `max_iterations` rounds the best unused clause is picked, made a used
/// clause, and resolved, with new variables, with every used clause; its
/// factors become unused clauses too.
///
/// The answer is `Ok(true)` only if the clauses have no model: the empty
/// clause was picked. It is `Ok(false)` never. The error `No proof found.`
/// says that no unused clause is left, the error `The search was given up.`
/// that the rounds or the variables ran out.
pub fn resolution_loop(
    used: Vec<Clause>,
    unused: Vec<Clause>,
    var_cnt: i64,
    max_iterations: u64,
) -> (r: Result<bool, &'static str>)
    requires
        var_cnt <= 0,
    ensures
        r matches Ok(b) ==> b && unsatisfiable(clause_views(used@) + clause_views(unused@)),
        unused@.len() == 0 ==> r is Err,
        match r {
            Ok(b) => b && resolved_from(
                used@,
                unused@,
                var_cnt as int,
                max_iterations as int,
                Outcome::Refuted,
            ),
            Err(e) => (e@ == "No proof found."@ && resolved_from(
                used@,
                unused@,
                var_cnt as int,
                max_iterations as int,
                Outcome::Exhausted,
            )) || (e@ == "The search was given up."@ && resolved_from(
                used@,
                unused@,
                var_cnt as int,
                max_iterations as int,
                Outcome::GivenUp,
            )),
        },
{
    match resolve(used, unused, var_cnt, max_iterations) {
        Outcome::Refuted => Ok(true),
        Outcome::Exhausted => Err("No proof found."),
        Outcome::GivenUp => Err("The search was given up."),
    }
}

/// Searches for a refutation by positive resolution, as `resolution_loop`
/// does, and says how the search ended: round after round, until the empty
/// clause is picked, no unused clause is left, or the rounds or the
/// variables ran out. It ends as refuted only if the clauses have no model.
pub fn resolve(used: Vec<Clause>, unused: Vec<Clause>, var_cnt: i64, max_iterations: u64) -> (r:
    Outcome)
    requires
        var_cnt <= 0,
    ensures
        r is Refuted ==> unsatisfiable(clause_views(used@) + clause_views(unused@)),
        unused@.len() == 0 ==> r is Exhausted,
        resolved_from(used@, unused@, var_cnt as int, max_iterations as int, r),
{
    search(used, unused, var_cnt, max_iterations, Ghost(clause_views(used@) + clause_views(unused@)))
}

/// The search of `resolve`, with the clauses that it starts from.
fn search(
    used: Vec<Clause>,
    unused: Vec<Clause>,
    var_cnt: i64,
    max_iterations: u64,
    start: Ghost<Seq<ClauseV>>,
) -> (r: Outcome)
    requires
        var_cnt <= 0,
        start@ == clause_views(used@) + clause_views(unused@),
    ensures
        r is Refuted ==> unsatisfiable(start@),
        unused@.len() == 0 ==> r is Exhausted,
        resolved_from(used@, unused@, var_cnt as int, max_iterations as int, r),
{
    let ghost input = clause_views(used@) + clause_views(unused@);
    let ghost first = Frontier { used: used@, unused: unused@, var_cnt: var_cnt as int };
    proof {
        lemma_all_entailed_by_themselves(used@, unused@);
    }
    let mut done = used;
    let mut rest = unused;
    let mut cnt = var_cnt;
    let mut rounds: u64 = 0;
    let ghost mut trace: Seq<Frontier> = seq![first];
    while rest.len() > 0
        invariant
            cnt <= 0,
            rounds <= max_iterations,
            all_entailed(input, done@),
            all_entailed(input, rest@),
            unused@.len() == 0 ==> rest@.len() == 0,
            input == start@,
            first == (Frontier { used: used@, unused: unused@, var_cnt: var_cnt as int }),
            trace.len() == rounds + 1,
            trace[0] == first,
            trace.last() == (Frontier { used: done@, unused: rest@, var_cnt: cnt as int }),
            forall|i: int| 0 <= i < rounds ==> rounded(#[trigger] trace[i], trace[i + 1]),
        decreases max_iterations - rounds,
    {
        if rounds >= max_iterations {
            proof {
                assert(resolved(trace, Outcome::GivenUp, max_iterations as int));
            }
            return Outcome::GivenUp;
        }
        let ghost before = trace;
        match one_round(&mut done, &mut rest, &mut cnt, Ghost(input)) {
            Some(end) => {
                proof {
                    assert(resolved(trace, end, max_iterations as int));
                }
                return end;
            },
            None => {},
        }
        rounds = rounds + 1;
        proof {
            trace = before.push(Frontier { used: done@, unused: rest@, var_cnt: cnt as int });
            assert forall|i: int| 0 <= i < rounds implies rounded(
                #[trigger] trace[i],
                trace[i + 1],
            ) by {
                if i < rounds - 1 {
                    assert(trace[i] == before[i]);
                    assert(trace[i + 1] == before[i + 1]);
                } else {
                    assert(trace[i] == before[i]);
                }
            }
        }
    }
    proof {
        assert(resolved(trace, Outcome::Exhausted, max_iterations as int));
    }
    Outcome::Exhausted
}

/// The clauses of a search by resolution: those that were picked, those
/// that wait, and the next unused variable.
pub struct Frontier {
    pub used: Seq<Clause>,
    pub unused: Seq<Clause>,
    pub var_cnt: int,
}

/// Whether the clause `n` was inferred from the clause `c`: it is a factor
/// of `c`, or a resolvent of `c` and a used clause and no tautology.
pub open spec fn inferred_from(c: ClauseV, used: Seq<Clause>, n: ClauseV) -> bool {
    some_factor(c, n) || (!is_tautology(n) && exists|j: int|
        0 <= j < used.len() && from_pair(c, (#[trigger] used[j])@, n))
}

/// Whether each factor of the clause is among the unused clauses from
/// place `from` on.
pub open spec fn factors_added(c: ClauseV, unused: Seq<Clause>, from: int) -> bool {
    forall|a: int, b: int|
        0 <= a < b < c.len() && #[trigger] unifiable(c, a, b) ==> exists|k: int|
            from <= k < unused.len() && is_factor(c, a, b, (#[trigger] unused[k])@)
}

/// Whether a round that picked the `i`-th unused clause and gave it the
/// variables of `c` leads from the clauses `b` to the clauses `a`.
///
/// The picked clause is the first of the shortest unused clauses and not
/// empty. It became the last used clause, and the last unused clause took
/// its place. `c` was resolved with every used clause, and the unused
/// clauses that were added are exactly what was inferred from `c`: the
/// resolvents with each used clause in turn that were not left out, and
/// then the factors of `c`.
pub open spec fn round_with(b: Frontier, a: Frontier, i: int, c: ClauseV) -> bool {
    let base = b.unused.update(i, b.unused.last()).drop_last();
    &&& first_shortest(b.unused, i)
    &&& b.unused[i]@.len() > 0
    &&& a.used.len() == b.used.len() + 1
    &&& forall|k: int| 0 <= k < b.used.len() ==> a.used[k] == b.used[k]
    &&& a.used.last()@ == b.unused[i]@
    &&& a.var_cnt <= b.var_cnt
    &&& exists|rho: SubstV| renamed(b.unused[i]@, c, rho, a.var_cnt, b.var_cnt)
    &&& base.len() <= a.unused.len()
    &&& forall|k: int| 0 <= k < base.len() ==> a.unused[k] == base[k]
    &&& forall|k: int|
        base.len() <= k < a.unused.len() ==> inferred_from(c, a.used, (#[trigger] a.unused[k])@)
    &&& forall|j: int|
        0 <= j < a.used.len() ==> clause_resolved(c, (#[trigger] a.used[j])@, a.used, a.unused)
    &&& factors_added(c, a.unused, base.len() as int)
    &&& exists|cuts: Seq<int>, inner: Seq<Seq<int>>| #[trigger]
        round_segments(c, a.used, a.unused, base.len() as int, cuts, inner)
}

/// The parts of a round make a round.
pub proof fn lemma_round_with(
    b: Frontier,
    a: Frontier,
    i: int,
    c: ClauseV,
    base: Seq<Clause>,
    rho: SubstV,
    cuts: Seq<int>,
    inner: Seq<Seq<int>>,
)
    requires
        first_shortest(b.unused, i),
        base == b.unused.update(i, b.unused.last()).drop_last(),
        b.unused[i]@.len() > 0,
        a.used.len() == b.used.len() + 1,
        forall|k: int| 0 <= k < b.used.len() ==> a.used[k] == b.used[k],
        a.used.last()@ == b.unused[i]@,
        a.var_cnt <= b.var_cnt,
        renamed(b.unused[i]@, c, rho, a.var_cnt, b.var_cnt),
        base.len() <= a.unused.len(),
        forall|k: int| 0 <= k < base.len() ==> a.unused[k] == base[k],
        forall|k: int|
            base.len() <= k < a.unused.len() ==> inferred_from(c, a.used, (#[trigger] a.unused[k])@),
        forall|j: int|
            0 <= j < a.used.len() ==> clause_resolved(c, (#[trigger] a.used[j])@, a.used, a.unused),
        factors_added(c, a.unused, base.len() as int),
        round_segments(c, a.used, a.unused, base.len() as int, cuts, inner),
    ensures
        round_with(b, a, i, c),
        rounded(b, a),
{
    assert(exists|rho: SubstV| renamed(b.unused[i]@, c, rho, a.var_cnt, b.var_cnt));
    assert(exists|cuts: Seq<int>, inner: Seq<Seq<int>>| #[trigger]
        round_segments(c, a.used, a.unused, base.len() as int, cuts, inner));
    assert(round_with(b, a, i, c));
}

/// Whether one round leads from the clauses `b` to the clauses `a`.
pub open spec fn rounded(b: Frontier, a: Frontier) -> bool {
    exists|i: int, c: ClauseV| round_with(b, a, i, c)
}

/// Whether the clause that is picked next is the empty clause.
pub open spec fn picks_empty(unused: Seq<Clause>) -> bool {
    exists|i: int| first_shortest(unused, i) && unused[i]@.len() == 0
}

/// Whether the clause that is picked next has more variables than are
/// left.
pub open spec fn picks_too_large(unused: Seq<Clause>, var_cnt: int) -> bool {
    exists|i: int|
        first_shortest(unused, i) && unused[i]@.len() > 0 && has_variables(
            unused[i]@,
            var_cnt - i64::MIN + 1,
        )
}

/// Whether the states are those of a search by resolution, from one round
/// to the next, that ended with `r` after at most `max` rounds: as refuted
/// where the empty clause is picked next, as exhausted where no clause is
/// unused, and as given up where a clause is unused and the rounds are
/// used up or the clause that is picked next has more variables than are
/// left.
pub open spec fn resolved(states: Seq<Frontier>, r: Outcome, max: int) -> bool {
    let n = states.len() - 1;
    &&& 0 <= n <= max
    &&& forall|i: int| 0 <= i < n ==> rounded(#[trigger] states[i], states[i + 1])
    &&& match r {
        Outcome::Refuted => n < max && picks_empty(states[n].unused),
        Outcome::Exhausted => states[n].unused.len() == 0,
        Outcome::GivenUp => states[n].unused.len() > 0 && (n == max || picks_too_large(
            states[n].unused,
            states[n].var_cnt,
        )),
    }
}

/// Whether a search by resolution of at most `max` rounds that starts with
/// the used and the unused clauses ends with `r`.
pub open spec fn resolved_from(
    used: Seq<Clause>,
    unused: Seq<Clause>,
    var_cnt: int,
    max: int,
    r: Outcome,
) -> bool {
    exists|states: Seq<Frontier>|
        states.len() >= 1 && states[0] == (Frontier { used, unused, var_cnt }) && #[trigger] resolved(
            states,
            r,
            max,
        )
}

/// One round of the search: picks the best unused clause, makes it a used
/// clause, resolves it, with new variables, with every used clause, and
/// adds its factors. Yields how the search ended where the round ended it:
/// as refuted where the empty clause was picked, as given up where the
/// variables ran out.
fn one_round(
    done: &mut Vec<Clause>,
    rest: &mut Vec<Clause>,
    cnt: &mut i64,
    input: Ghost<Seq<ClauseV>>,
) -> (end: Option<Outcome>)
    requires
        old(rest)@.len() > 0,
        *old(cnt) <= 0,
        all_entailed(input@, old(done)@),
        all_entailed(input@, old(rest)@),
    ensures
        *final(cnt) <= 0,
        all_entailed(input@, final(done)@),
        all_entailed(input@, final(rest)@),
        match end {
            None => rounded(
                Frontier { used: old(done)@, unused: old(rest)@, var_cnt: *old(cnt) as int },
                Frontier { used: final(done)@, unused: final(rest)@, var_cnt: *final(cnt) as int },
            ),
            Some(Outcome::Refuted) => picks_empty(old(rest)@) && unsatisfiable(input@),
            Some(Outcome::GivenUp) => picks_too_large(old(rest)@, *old(cnt) as int),
            Some(Outcome::Exhausted) => false,
        },
{
    let ghost b = Frontier { used: done@, unused: rest@, var_cnt: *cnt as int };
    let mut chosen = pick_clause(rest);
    let ghost i = choose|i: int|
        {
            &&& #[trigger] first_shortest(b.unused, i)
            &&& chosen == b.unused[i]
            &&& rest@ == b.unused.update(i, b.unused.last()).drop_last()
        };
    let ghost base = rest@;
    proof {
        assert(entails(input@, chosen@));
        assert forall|k: int| 0 <= k < rest@.len() implies entails(
            input@,
            (#[trigger] rest@[k])@,
        ) by {
            if k == i {
                assert(rest@[k] == b.unused.last());
            } else {
                assert(rest@[k] == b.unused[k]);
            }
        }
    }
    if chosen.is_empty() {
        proof {
            assert(chosen@ =~= Seq::empty());
            lemma_empty_clause(input@);
            assert(first_shortest(b.unused, i) && b.unused[i]@.len() == 0);
        }
        return Some(Outcome::Refuted);
    }
    let ghost done_before = done@;
    done.push(chosen.clone());
    proof {
        assert forall|k: int| 0 <= k < done@.len() implies entails(
            input@,
            (#[trigger] done@[k])@,
        ) by {
            if k < done_before.len() {
                assert(done@[k] == done_before[k]);
            }
        }
    }
    let ghost plain = chosen@;
    let ghost hi = *cnt;
    if !rename_clause(&mut chosen, cnt) {
        proof {
            assert(first_shortest(b.unused, i) && b.unused[i]@.len() > 0 && has_variables(
                b.unused[i]@,
                b.var_cnt - i64::MIN + 1,
            ));
        }
        return Some(Outcome::GivenUp);
    }
    let ghost c = chosen@;
    let ghost rho0 = choose|rho: SubstV| renamed(plain, chosen@, rho, *cnt as int, hi as int);
    proof {
        lemma_entails_instance(input@, plain, rho0);
    }
    let n = done.len();
    let ghost mut cuts: Seq<int> = seq![base.len() as int];
    let ghost mut inner: Seq<Seq<int>> = Seq::empty();
    let mut k: usize = 0;
    while k < n
        invariant
            0 <= k <= n,
            n == done@.len(),
            c == chosen@,
            cuts.len() == k + 1,
            inner.len() == k,
            cuts[0] == base.len(),
            cuts[k as int] == rest@.len(),
            forall|j: int|
                0 <= j < k ==> clause_segment(
                    c,
                    (#[trigger] done@[j])@,
                    done@,
                    rest@,
                    cuts[j],
                    cuts[j + 1],
                    inner[j],
                ),
            entails(input@, chosen@),
            all_entailed(input@, done@),
            all_entailed(input@, rest@),
            base.len() <= rest@.len(),
            forall|a: int| 0 <= a < base.len() ==> rest@[a] == base[a],
            forall|a: int|
                base.len() <= a < rest@.len() ==> inferred_from(c, done@, (#[trigger] rest@[a])@),
            forall|j: int|
                0 <= j < k ==> clause_resolved(c, (#[trigger] done@[j])@, done@, rest@),
        decreases n - k,
    {
        let ghost before = rest@;
        let ghost cuts0 = cuts;
        let ghost inner0 = inner;
        resolve_clauses(&chosen, &done[k], &done, rest);
        proof {
            let los = choose|los: Seq<int>| #[trigger]
                clause_segment(
                    c,
                    done@[k as int]@,
                    done@,
                    rest@,
                    before.len() as int,
                    rest@.len() as int,
                    los,
                );
            cuts = cuts0.push(rest@.len() as int);
            inner = inner0.push(los);
            assert forall|j: int| 0 <= j < k + 1 implies clause_segment(
                c,
                (#[trigger] done@[j])@,
                done@,
                rest@,
                cuts[j],
                cuts[j + 1],
                inner[j],
            ) by {
                if j < k {
                    assert(cuts[j] == cuts0[j] && cuts[j + 1] == cuts0[j + 1] && inner[j]
                        == inner0[j]);
                    lemma_clause_segment_grows(
                        c,
                        done@[j]@,
                        done@,
                        before,
                        rest@,
                        cuts0[j],
                        cuts0[j + 1],
                        inner0[j],
                    );
                }
            }
        }
        proof {
            assert forall|a: int| 0 <= a < rest@.len() implies entails(
                input@,
                (#[trigger] rest@[a])@,
            ) by {
                if a < before.len() {
                    assert(rest@[a] == before[a]);
                } else {
                    let (x, y) = choose|x: int, y: int|
                        0 <= x < chosen@.len() && is_resolvent(
                            chosen@,
                            chosen@[x],
                            done@[k as int]@,
                            y,
                            rest@[a]@,
                        );
                    lemma_entails_resolvent(
                        input@,
                        chosen@,
                        chosen@[x],
                        done@[k as int]@,
                        y,
                        rest@[a]@,
                    );
                }
            }
            assert forall|a: int| base.len() <= a < rest@.len() implies inferred_from(
                c,
                done@,
                (#[trigger] rest@[a])@,
            ) by {
                if a < before.len() {
                    assert(rest@[a] == before[a]);
                } else {
                    assert(from_pair(c, done@[k as int]@, rest@[a]@));
                }
            }
            assert forall|j: int| 0 <= j < k + 1 implies clause_resolved(
                c,
                (#[trigger] done@[j])@,
                done@,
                rest@,
            ) by {
                if j < k {
                    lemma_clause_resolved_grows(c, done@[j]@, done@, before, rest@);
                }
            }
        }
        k += 1;
    }
    let ghost before = rest@;
    factor(chosen, rest);
    proof {
        assert forall|a: int| 0 <= a < rest@.len() implies entails(
            input@,
            (#[trigger] rest@[a])@,
        ) by {
            if a < before.len() {
                assert(rest@[a] == before[a]);
            } else {
                assert(some_factor(c, rest@[a]@));
                let (x, y) = choose|x: int, y: int| is_factor(c, x, y, rest@[a]@);
                lemma_entails_factor(input@, c, x, y, rest@[a]@);
            }
        }
        assert forall|a: int| base.len() <= a < rest@.len() implies inferred_from(
            c,
            done@,
            (#[trigger] rest@[a])@,
        ) by {
            if a < before.len() {
                assert(rest@[a] == before[a]);
            } else {
                assert(some_factor(c, rest@[a]@));
            }
        }
        assert forall|j: int| 0 <= j < done@.len() implies clause_resolved(
            c,
            (#[trigger] done@[j])@,
            done@,
            rest@,
        ) by {
            lemma_clause_resolved_grows(c, done@[j]@, done@, before, rest@);
        }
        assert(factors_added(c, rest@, base.len() as int)) by {
            assert forall|x: int, y: int|
                0 <= x < y < c.len() && #[trigger] unifiable(c, x, y) implies exists|k: int|
                base.len() <= k < rest@.len() && is_factor(c, x, y, (#[trigger] rest@[k])@) by {
                let k = choose|k: int|
                    before.len() <= k < rest@.len() && is_factor(c, x, y, (#[trigger] rest@[k])@);
                assert(base.len() <= k < rest@.len() && is_factor(c, x, y, rest@[k]@));
            }
        }
        assert forall|j: int| 0 <= j < done@.len() implies clause_segment(
            c,
            (#[trigger] done@[j])@,
            done@,
            rest@,
            cuts[j],
            cuts[j + 1],
            inner[j],
        ) by {
            lemma_clause_segment_grows(
                c,
                done@[j]@,
                done@,
                before,
                rest@,
                cuts[j],
                cuts[j + 1],
                inner[j],
            );
        }
        let pairs = choose|pairs: Seq<(int, int)>| #[trigger]
            factor_places(c, rest@, before.len() as int, pairs, c.len() as int, 0);
        assert(cuts[done@.len() as int] == before.len());
        assert(factor_places(c, rest@, cuts[done@.len() as int], pairs, c.len() as int, 0));
        assert(round_segments(c, done@, rest@, base.len() as int, cuts, inner));
        let a = Frontier { used: done@, unused: rest@, var_cnt: *cnt as int };
        assert(base == b.unused.update(i, b.unused.last()).drop_last());
        assert(first_shortest(b.unused, i));
        assert(b.unused[i]@.len() > 0);
        assert(a.used.len() == b.used.len() + 1);
        assert(forall|k: int| 0 <= k < b.used.len() ==> a.used[k] == b.used[k]);
        assert(a.used.last()@ == b.unused[i]@);
        assert(a.var_cnt <= b.var_cnt);
        assert(renamed(b.unused[i]@, c, rho0, a.var_cnt, b.var_cnt));
        lemma_round_with(b, a, i, c, base, rho0, cuts, inner);
    }
    None
}

/// The clauses of two sequences follow from the clauses of both.
pub proof fn lemma_all_entailed_by_themselves(used: Seq<Clause>, unused: Seq<Clause>)
    ensures
        all_entailed(clause_views(used) + clause_views(unused), used),
        all_entailed(clause_views(used) + clause_views(unused), unused),
{
    let input = clause_views(used) + clause_views(unused);
    assert forall|k: int| 0 <= k < used.len() implies entails(input, (#[trigger] used[k])@) by {
        assert forall|m: Interpretation| #[trigger] models_all(m, input) implies models(
            m,
            used[k]@,
        ) by {
            assert(input[k] == used[k]@);
        }
    }
    assert forall|k: int| 0 <= k < unused.len() implies entails(
        input,
        (#[trigger] unused[k])@,
    ) by {
        assert forall|m: Interpretation| #[trigger] models_all(m, input) implies models(
            m,
            unused[k]@,
        ) by {
            assert(input[k + used.len()] == unused[k]@);
        }
    }
}

} // verus!
