//! Equality resolution.
use crate::clause::{apply_clause, Clause, ClauseV};
use crate::inference::maximality::{
    literal_maximal_in, maximal_in, most_general_unifier, unifiable,
};
use crate::ordering::term_ordering::TermOrdering;
use crate::simplification::feature_vector::{lemma_places_take, places};
use crate::semantics::{clause_holds, lemma_clause_apply, literal_holds, models, pull, Interpretation, Valuation};
use crate::term::SubstV;
use crate::unification::mgu;
use vstd::prelude::*;

verus! {

/// The conclusion of equality resolution on the `i`-th literal under `s`:
/// the instance of the clause without that literal.
pub open spec fn er_child(c: ClauseV, i: int, s: SubstV) -> ClauseV {
    apply_clause(c, s).remove(i)
}

/// Whether `g` is inferred from `c` by equality resolution on the `i`-th
/// literal under the substitution `s`: the literal is a disequation, `s` is
/// a most general unifier of its sides, and no literal of the conclusion is
/// greater than the instance of the literal.
pub open spec fn er_step(ord: TermOrdering, c: ClauseV, i: int, s: SubstV, g: ClauseV) -> bool {
    &&& 0 <= i < c.len()
    &&& !c[i].positive
    &&& most_general_unifier(s, c[i].lhs, c[i].rhs)
    &&& g == er_child(c, i, s)
    &&& maximal_in(ord, g, c[i].apply(s))
}

/// Whether `g` is inferred from `c` by equality resolution on the `i`-th literal.
pub open spec fn er_inference(ord: TermOrdering, c: ClauseV, i: int, g: ClauseV) -> bool {
    exists|s: SubstV| er_step(ord, c, i, s, g)
}

/// Whether `g` is inferred from `c` by equality resolution on some literal.
pub open spec fn er_conclusion(ord: TermOrdering, c: ClauseV, g: ClauseV) -> bool {
    exists|i: int| er_inference(ord, c, i, g)
}

/// Whether equality resolution on the `i`-th literal gives nothing: the
/// literal is an equation, or its sides have no unifier, or under a most
/// general unifier some other literal is greater.
pub open spec fn er_blocked(ord: TermOrdering, c: ClauseV, i: int) -> bool {
    ||| c[i].positive
    ||| !unifiable(c[i].lhs, c[i].rhs)
    ||| exists|s: SubstV| #[trigger]
        most_general_unifier(s, c[i].lhs, c[i].rhs) && !maximal_in(
            ord,
            er_child(c, i, s),
            c[i].apply(s),
        )
}

/// Whether the clauses of `generated` from place `from` on hold the
/// conclusion of equality resolution on the `i`-th literal of `c`.
pub open spec fn er_generated(
    ord: TermOrdering,
    c: ClauseV,
    i: int,
    generated: Seq<Clause>,
    from: int,
) -> bool {
    exists|k: int| from <= k < generated.len() && er_inference(ord, c, i, (#[trigger] generated[k])@)
}

/// Whether the clauses of `generated` from place `from` on are the
/// conclusions of equality resolution on the literals of `c` at the places
/// `idx`, one for each place and in the order of the places, and every
/// literal at another place below `upto` is blocked.
pub open spec fn er_places(
    ord: TermOrdering,
    c: ClauseV,
    generated: Seq<Clause>,
    from: int,
    idx: Seq<int>,
    upto: int,
) -> bool {
    &&& generated.len() == from + idx.len()
    &&& forall|k: int|
        0 <= k < idx.len() ==> 0 <= #[trigger] idx[k] < upto && er_inference(
            ord,
            c,
            idx[k],
            generated[from + k]@,
        )
    &&& forall|k: int, l: int| 0 <= k < l < idx.len() ==> #[trigger] idx[k] < #[trigger] idx[l]
    &&& forall|i: int| 0 <= i < upto && !idx.contains(i) ==> #[trigger] er_blocked(ord, c, i)
}

/// A model of the premise is a model of the conclusion.
pub proof fn lemma_er_sound(ord: TermOrdering, c: ClauseV, g: ClauseV, m: Interpretation)
    requires
        er_conclusion(ord, c, g),
        models(m, c),
    ensures
        models(m, g),
{
    let i = choose|i: int| er_inference(ord, c, i, g);
    let s = choose|s: SubstV| er_step(ord, c, i, s, g);
    let d = apply_clause(c, s);
    assert forall|v: Valuation| #[trigger] clause_holds(g, m, v) by {
        lemma_clause_apply(c, s, m, v);
        assert(clause_holds(c, m, pull(s, m, v)));
        let k = choose|k: int| 0 <= k < d.len() && literal_holds(#[trigger] d[k], m, v);
        assert(d[i] == c[i].apply(s));
        assert(k != i);
        if k < i {
            assert(g[k] == d[k]);
        } else {
            assert(g[k - 1] == d[k]);
        }
    }
}

/// The conclusion of equality resolution on the `i`-th literal, if there is one.
fn er_at(term_ordering: &TermOrdering, cl: &Clause, i: usize) -> (r: Option<Clause>)
    requires
        i < cl@.len(),
    ensures
        match r {
            Some(g) => er_inference(*term_ordering, cl@, i as int, g@),
            None => er_blocked(*term_ordering, cl@, i as int),
        },
{
    let l = cl.at(i);
    if !l.is_negative() {
        return None;
    }
    match mgu(l.get_lhs(), l.get_rhs()) {
        Err(_) => {
            proof {
                assert forall|th: SubstV| !crate::unification::unifier(th, l@.lhs, l@.rhs) by {}
            }
            None
        },
        Ok(sigma) => {
            let mut new_cl = cl.apply(&sigma);
            let new_l = new_cl.remove(i);
            proof {
                assert(most_general_unifier(sigma@, l@.lhs, l@.rhs));
                assert(new_cl@ == er_child(cl@, i as int, sigma@));
                assert(new_l@ == cl@[i as int].apply(sigma@));
            }
            if literal_maximal_in(term_ordering, &new_cl, &new_l) {
                proof {
                    assert(er_step(*term_ordering, cl@, i as int, sigma@, new_cl@));
                }
                Some(new_cl)
            } else {
                None
            }
        },
    }
}

/// Adds to `generated` the conclusions of equality resolution on the
/// literals of the clause and yields their number.
///
/// From `C \/ s != t`, with a most general unifier of `s` and `t`, the
/// instance of `C` is inferred where no literal of it is greater than the
/// instance of `s != t`. Each literal is either blocked or has its
/// conclusion among the clauses that were added.
pub fn equality_resolution(
    term_ordering: &TermOrdering,
    cl: &Clause,
    generated: &mut Vec<Clause>,
) -> (er_count: usize)
    ensures
        final(generated)@.len() == old(generated)@.len() + er_count,
        forall|k: int| 0 <= k < old(generated)@.len() ==> final(generated)@[k] == old(generated)@[k],
        forall|k: int|
            old(generated)@.len() <= k < final(generated)@.len() ==> er_conclusion(
                *term_ordering,
                cl@,
                (#[trigger] final(generated)@[k])@,
            ),
        forall|i: int|
            0 <= i < cl@.len() ==> er_blocked(*term_ordering, cl@, i) || #[trigger] er_generated(
                *term_ordering,
                cl@,
                i,
                final(generated)@,
                old(generated)@.len() as int,
            ),
        exists|idx: Seq<int>|
            idx.len() == er_count && #[trigger] er_places(
                *term_ordering,
                cl@,
                final(generated)@,
                old(generated)@.len() as int,
                idx,
                cl@.len() as int,
            ),
        er_count <= places(cl@, false).len(),
{
    let ghost ord = *term_ordering;
    let ghost start = generated@.len() as int;
    let ghost mut idx: Seq<int> = Seq::empty();
    proof {
        assert(places(cl@.take(0), false) =~= Set::<int>::empty());
    }
    let mut er_count: usize = 0;
    let n = cl.size();
    let mut i: usize = 0;
    while i < n
        invariant
            0 <= i <= n,
            n == cl@.len(),
            ord == *term_ordering,
            start == old(generated)@.len(),
            er_count <= i,
            generated@.len() == start + er_count,
            idx.len() == er_count,
            er_places(ord, cl@, generated@, start, idx, i as int),
            er_count <= places(cl@.take(i as int), false).len(),
            forall|k: int| 0 <= k < start ==> generated@[k] == old(generated)@[k],
            forall|k: int|
                start <= k < generated@.len() ==> er_conclusion(
                    ord,
                    cl@,
                    (#[trigger] generated@[k])@,
                ),
            forall|j: int|
                0 <= j < i ==> er_blocked(ord, cl@, j) || #[trigger] er_generated(
                    ord,
                    cl@,
                    j,
                    generated@,
                    start,
                ),
        decreases n - i,
    {
        let ghost before = generated@;
        let ghost places_before = idx;
        proof {
            lemma_places_take(cl@, i as int, false);
        }
        match er_at(term_ordering, cl, i) {
            Some(g) => {
                generated.push(g);
                er_count += 1;
                proof {
                    idx = places_before.push(i as int);
                    assert(!cl@[i as int].positive);
                    assert(er_inference(ord, cl@, i as int, generated@[before.len() as int]@));
                    assert(er_conclusion(ord, cl@, generated@[before.len() as int]@));
                    assert(er_generated(ord, cl@, i as int, generated@, start));
                }
            },
            None => {},
        }
        proof {
            assert forall|j: int| 0 <= j < i implies er_blocked(ord, cl@, j) || #[trigger] er_generated(
                ord,
                cl@,
                j,
                generated@,
                start,
            ) by {
                if !er_blocked(ord, cl@, j) {
                    assert(er_generated(ord, cl@, j, before, start));
                    let k = choose|k: int|
                        start <= k < before.len() && er_inference(ord, cl@, j, (#[trigger] before[k])@);
                    assert(generated@[k] == before[k]);
                }
            }
            assert forall|k: int| start <= k < generated@.len() implies er_conclusion(
                ord,
                cl@,
                (#[trigger] generated@[k])@,
            ) by {
                if k < before.len() {
                    assert(generated@[k] == before[k]);
                }
            }
            assert forall|k: int| 0 <= k < idx.len() implies 0 <= #[trigger] idx[k] < i + 1
                && er_inference(ord, cl@, idx[k], generated@[start + k]@) by {
                if k < places_before.len() {
                    assert(idx[k] == places_before[k]);
                    assert(generated@[start + k] == before[start + k]);
                }
            }
            assert forall|k: int, l: int| 0 <= k < l < idx.len() implies #[trigger] idx[k]
                < #[trigger] idx[l] by {
                if l < places_before.len() {
                    assert(idx[k] == places_before[k] && idx[l] == places_before[l]);
                } else {
                    assert(idx[k] == places_before[k]);
                }
            }
            assert forall|j: int| 0 <= j < i + 1 && !idx.contains(j) implies #[trigger] er_blocked(
                ord,
                cl@,
                j,
            ) by {
                if j < i {
                    if places_before.contains(j) {
                        let k = choose|k: int| 0 <= k < places_before.len() && places_before[k] == j;
                        assert(idx[k] == j);
                    }
                } else {
                    if idx.len() > places_before.len() {
                        assert(idx[places_before.len() as int] == j);
                    }
                }
            }
        }
        i += 1;
    }
    proof {
        assert(cl@.take(n as int) =~= cl@);
    }
    er_count
}

/// What was generated among the clauses from one place on is generated
/// among more clauses from an earlier place on.
pub proof fn lemma_er_transfer(
    ord: TermOrdering,
    c: ClauseV,
    i: int,
    before: Seq<Clause>,
    after: Seq<Clause>,
    from: int,
    start: int,
)
    requires
        er_generated(ord, c, i, before, from),
        before.len() <= after.len(),
        forall|k: int| 0 <= k < before.len() ==> after[k] == before[k],
        0 <= start <= from,
    ensures
        er_generated(ord, c, i, after, start),
{
    let k = choose|k: int|
        from <= k < before.len() && er_inference(ord, c, i, (#[trigger] before[k])@);
    assert(after[k] == before[k]);
}

} // verus!
