//! Factoring: two literals of a clause that a substitution makes the same
//! become one.
use crate::clause::{apply_clause, Clause, ClauseV};
use crate::semantics::{
    clause_holds, entails, lemma_clause_apply, lemma_eval_apply, literal_holds, models,
    models_all, pull, Interpretation, Valuation,
};
use crate::term::SubstV;
use crate::unification::{literal_mgu, literal_unifier, unify_literals};
use vstd::prelude::*;

verus! {

/// The factor of the clause on its `j`-th literal under the substitution
/// `th`: the instance of the clause without that literal, in whose place
/// the last literal stands.
pub open spec fn factor_of(c: ClauseV, j: int, th: SubstV) -> ClauseV {
    apply_clause(c.update(j, c.last()).drop_last(), th)
}

/// Whether `n` is a factor of the clause on its `i`-th and `j`-th
/// literals, under their most general unifier.
pub open spec fn is_factor(c: ClauseV, i: int, j: int, n: ClauseV) -> bool {
    &&& 0 <= i < j < c.len()
    &&& exists|th: SubstV| literal_mgu(th, c[i], c[j]) && n == #[trigger] factor_of(c, j, th)
}

/// Whether `n` is a factor of the clause on two of its literals.
pub open spec fn some_factor(c: ClauseV, n: ClauseV) -> bool {
    exists|i: int, j: int| is_factor(c, i, j, n)
}

/// Whether the `i`-th and the `j`-th literal of the clause can be made the same.
pub open spec fn unifiable(c: ClauseV, i: int, j: int) -> bool {
    exists|th: SubstV| literal_unifier(th, c[i], c[j])
}

/// Factoring is sound: a model of a clause is a model of each of its factors.
pub proof fn lemma_factor_sound(m: Interpretation, c: ClauseV, i: int, j: int, th: SubstV)
    requires
        models(m, c),
        0 <= i < j < c.len(),
        literal_unifier(th, c[i], c[j]),
    ensures
        models(m, factor_of(c, j, th)),
{
    let rest = c.update(j, c.last()).drop_last();
    assert forall|v: Valuation| #[trigger] clause_holds(factor_of(c, j, th), m, v) by {
        let w = pull(th, m, v);
        assert(clause_holds(c, m, w));
        let k = choose|k: int| 0 <= k < c.len() && literal_holds(#[trigger] c[k], m, w);
        lemma_eval_apply(c[i].lhs, th, m, v);
        lemma_eval_apply(c[i].rhs, th, m, v);
        lemma_eval_apply(c[j].lhs, th, m, v);
        lemma_eval_apply(c[j].rhs, th, m, v);
        if k == j {
            assert(literal_holds(c[i], m, w));
            assert(rest[i] == c[i]);
        } else if k == c.len() - 1 {
            assert(rest[j] == c[k]);
        } else {
            assert(rest[k] == c[k]);
        }
        assert(clause_holds(rest, m, w));
        lemma_clause_apply(rest, th, m, v);
    }
}

/// A factor follows from what the clause follows from.
pub proof fn lemma_entails_factor(input: Seq<ClauseV>, c: ClauseV, i: int, j: int, n: ClauseV)
    requires
        entails(input, c),
        is_factor(c, i, j, n),
    ensures
        entails(input, n),
{
    let th = choose|th: SubstV| literal_mgu(th, c[i], c[j]) && n == #[trigger] factor_of(c, j, th);
    assert forall|m: Interpretation| #[trigger] models_all(m, input) implies models(m, n) by {
        lemma_factor_sound(m, c, i, j, th);
    }
}

/// Whether the pair of places `(a, b)` comes before the pair `(i, j)`.
pub open spec fn pair_before(a: int, b: int, i: int, j: int) -> bool {
    a < i || (a == i && b < j)
}

/// Whether the clauses of `unused` from place `from` on are the factors of
/// `c` on the pairs of literals at the places `idx`, one for each pair and
/// in the order of the pairs, and no other pair of literals before the
/// pair `(i, j)` can be made the same.
pub open spec fn factor_places(
    c: ClauseV,
    unused: Seq<Clause>,
    from: int,
    idx: Seq<(int, int)>,
    i: int,
    j: int,
) -> bool {
    &&& unused.len() == from + idx.len()
    &&& forall|k: int|
        0 <= k < idx.len() ==> pair_before((#[trigger] idx[k]).0, idx[k].1, i, j) && is_factor(
            c,
            idx[k].0,
            idx[k].1,
            unused[from + k]@,
        )
    &&& forall|k: int, l: int|
        0 <= k < l < idx.len() ==> pair_before(
            (#[trigger] idx[k]).0,
            idx[k].1,
            (#[trigger] idx[l]).0,
            idx[l].1,
        )
    &&& forall|a: int, b: int|
        0 <= a < b < c.len() && pair_before(a, b, i, j) && !idx.contains((a, b)) ==> !#[trigger] unifiable(
            c,
            a,
            b,
        )
}

/// Adds the factors of the clause to the unused clauses: one for each two
/// of its literals that can be made the same, in the order of the pairs of
/// literals.
pub fn factor(cl: Clause, unused: &mut Vec<Clause>)
    ensures
        final(unused)@.len() >= old(unused)@.len(),
        forall|k: int| 0 <= k < old(unused)@.len() ==> final(unused)@[k] == old(unused)@[k],
        forall|k: int|
            old(unused)@.len() <= k < final(unused)@.len() ==> some_factor(
                cl@,
                (#[trigger] final(unused)@[k])@,
            ),
        forall|i: int, j: int|
            0 <= i < j < cl@.len() && #[trigger] unifiable(cl@, i, j) ==> exists|k: int|
                old(unused)@.len() <= k < final(unused)@.len() && is_factor(
                    cl@,
                    i,
                    j,
                    (#[trigger] final(unused)@[k])@,
                ),
        exists|idx: Seq<(int, int)>| #[trigger]
            factor_places(
                cl@,
                final(unused)@,
                old(unused)@.len() as int,
                idx,
                cl@.len() as int,
                0,
            ),
{
    let n = cl.size();
    let ghost start = unused@.len() as int;
    let ghost mut idx: Seq<(int, int)> = Seq::empty();
    let mut i: usize = 0;
    while i < n
        invariant
            0 <= i <= n,
            n == cl@.len(),
            start == old(unused)@.len(),
            factor_places(cl@, unused@, start, idx, i as int, 0),
            unused@.len() >= old(unused)@.len(),
            forall|k: int| 0 <= k < old(unused)@.len() ==> unused@[k] == old(unused)@[k],
            forall|k: int|
                old(unused)@.len() <= k < unused@.len() ==> some_factor(
                    cl@,
                    (#[trigger] unused@[k])@,
                ),
            forall|a: int, b: int|
                0 <= a < i && a < b < n && #[trigger] unifiable(cl@, a, b) ==> exists|k: int|
                    old(unused)@.len() <= k < unused@.len() && is_factor(
                        cl@,
                        a,
                        b,
                        (#[trigger] unused@[k])@,
                    ),
        decreases n - i,
    {
        let mut j: usize = i + 1;
        while j < n
            invariant
                0 <= i < j <= n,
                n == cl@.len(),
                start == old(unused)@.len(),
                factor_places(cl@, unused@, start, idx, i as int, j as int),
                unused@.len() >= old(unused)@.len(),
                forall|k: int| 0 <= k < old(unused)@.len() ==> unused@[k] == old(unused)@[k],
                forall|k: int|
                    old(unused)@.len() <= k < unused@.len() ==> some_factor(
                    cl@,
                    (#[trigger] unused@[k])@,
                ),
                forall|a: int, b: int|
                    0 <= a < b < n && (a < i || (a == i && b < j)) && #[trigger] unifiable(
                        cl@,
                        a,
                        b,
                    ) ==> exists|k: int|
                        old(unused)@.len() <= k < unused@.len() && is_factor(
                            cl@,
                            a,
                            b,
                            (#[trigger] unused@[k])@,
                        ),
            decreases n - j,
        {
            let ghost before = unused@;
            let ghost pairs = idx;
            match unify_literals(cl.at(i), cl.at(j)) {
                Ok(theta) => {
                    proof {
                        idx = pairs.push((i as int, j as int));
                    }
                    let mut shorter = cl.clone();
                    shorter.swap_remove(j);
                    let new_cl = shorter.apply(&theta);
                    proof {
                        assert(new_cl@ == factor_of(cl@, j as int, theta@));
                        assert(is_factor(cl@, i as int, j as int, new_cl@));
                    }
                    unused.push(new_cl);
                    proof {
                        assert(unused@[before.len() as int]@ == new_cl@);
                        assert forall|k: int|
                            old(unused)@.len() <= k < unused@.len() implies some_factor(
                    cl@,
                    (#[trigger] unused@[k])@,
                ) by {
                            if k < before.len() {
                                assert(unused@[k] == before[k]);
                            }
                        }
                    }
                },
                Err(_) => {
                    proof {
                        assert(!unifiable(cl@, i as int, j as int));
                    }
                },
            }
            proof {
                assert forall|a: int, b: int|
                    0 <= a < b < n && (a < i || (a == i && b < j + 1)) && #[trigger] unifiable(
                        cl@,
                        a,
                        b,
                    ) implies exists|k: int|
                    old(unused)@.len() <= k < unused@.len() && is_factor(
                        cl@,
                        a,
                        b,
                        (#[trigger] unused@[k])@,
                    ) by {
                    if a == i && b == j {
                        assert(is_factor(cl@, a, b, unused@[before.len() as int]@));
                    } else {
                        let k = choose|k: int|
                            old(unused)@.len() <= k < before.len() && is_factor(
                                cl@,
                                a,
                                b,
                                (#[trigger] before[k])@,
                            );
                        assert(unused@[k] == before[k]);
                    }
                }
                assert forall|k: int| 0 <= k < idx.len() implies pair_before(
                    (#[trigger] idx[k]).0,
                    idx[k].1,
                    i as int,
                    j + 1,
                ) && is_factor(cl@, idx[k].0, idx[k].1, unused@[start + k]@) by {
                    if k < pairs.len() {
                        assert(idx[k] == pairs[k]);
                        assert(unused@[start + k] == before[start + k]);
                    } else {
                        assert(idx[k] == (i as int, j as int));
                    }
                }
                assert forall|k: int, l: int| 0 <= k < l < idx.len() implies pair_before(
                    (#[trigger] idx[k]).0,
                    idx[k].1,
                    (#[trigger] idx[l]).0,
                    idx[l].1,
                ) by {
                    assert(idx[k] == pairs[k]);
                    if l < pairs.len() {
                        assert(idx[l] == pairs[l]);
                    } else {
                        assert(idx[l] == (i as int, j as int));
                    }
                }
                assert forall|a: int, b: int|
                    0 <= a < b < cl@.len() && pair_before(a, b, i as int, j + 1) && !idx.contains(
                        (a, b),
                    ) implies !#[trigger] unifiable(cl@, a, b) by {
                    if a == i && b == j {
                        if idx.len() > pairs.len() {
                            assert(idx[pairs.len() as int] == (a, b));
                        }
                    } else {
                        if pairs.contains((a, b)) {
                            let k = choose|k: int| 0 <= k < pairs.len() && pairs[k] == (a, b);
                            assert(idx[k] == (a, b));
                        }
                    }
                }
            }
            j += 1;
        }
        i += 1;
    }
}

} // verus!
