//! Equality factoring.
use crate::clause::{apply_clause, Clause, ClauseV};
use crate::inference::maximality::{
    literal_maximal_in, maximal_in, most_general_unifier, unifiable,
};
use crate::literal::{Literal, LiteralV};
use crate::ordering::term_ordering::TermOrdering;
use crate::semantics::{
    clause_holds, eval, lemma_clause_apply, lemma_eval_apply, literal_holds, models, pull,
    Interpretation, Valuation,
};
use crate::term::{SubstV, Term, TermV};
use crate::unification::mgu;
use vstd::prelude::*;

verus! {

/// The two sides of a literal, exchanged where `flip`.
pub open spec fn oriented(l: LiteralV, flip: bool) -> (TermV, TermV) {
    if flip {
        (l.rhs, l.lhs)
    } else {
        (l.lhs, l.rhs)
    }
}

/// The two sides of a literal, exchanged where `flip`.
pub fn sides(l: &Literal, flip: bool) -> (r: (&Term, &Term))
    ensures
        (r.0@, r.1@) == oriented(l@, flip),
{
    if flip {
        (l.get_rhs(), l.get_lhs())
    } else {
        (l.get_lhs(), l.get_rhs())
    }
}

/// The conclusion of equality factoring on the `i`-th literal `s = t` and
/// the `j`-th literal `u = v` under `sub`: the instance of the clause
/// without `s = t` and with `t != v`.
pub open spec fn ef_child(c: ClauseV, i: int, fi: bool, j: int, fj: bool, sub: SubstV) -> ClauseV {
    apply_clause(
        c.remove(i).push(
            LiteralV { positive: false, lhs: oriented(c[i], fi).1, rhs: oriented(c[j], fj).1 },
        ),
        sub,
    )
}

/// Whether `g` is inferred from `c` by equality factoring on the equations
/// `s = t` at `i` and `u = v` at `j`, read as `fi` and `fj` say, under `sub`:
/// `sub` is a most general unifier of `s` and `u`, the instance of `t` is not
/// greater than that of `s`, and no literal of the instance of the clause is
/// greater than the instance of `s = t`.
pub open spec fn ef_step(
    ord: TermOrdering,
    c: ClauseV,
    i: int,
    fi: bool,
    j: int,
    fj: bool,
    sub: SubstV,
    g: ClauseV,
) -> bool {
    &&& 0 <= i < c.len()
    &&& 0 <= j < c.len()
    &&& i != j
    &&& c[i].positive
    &&& c[j].positive
    &&& most_general_unifier(sub, oriented(c[i], fi).0, oriented(c[j], fj).0)
    &&& g == ef_child(c, i, fi, j, fj, sub)
    &&& !ord.greater(oriented(c[i], fi).1.apply(sub), oriented(c[i], fi).0.apply(sub))
    &&& maximal_in(ord, apply_clause(c, sub), c[i].apply(sub))
}

/// Whether `g` is inferred from `c` by equality factoring on the literals at
/// `i` and `j`, read as `fi` and `fj` say.
pub open spec fn ef_inference(
    ord: TermOrdering,
    c: ClauseV,
    i: int,
    fi: bool,
    j: int,
    fj: bool,
    g: ClauseV,
) -> bool {
    exists|sub: SubstV| ef_step(ord, c, i, fi, j, fj, sub, g)
}

/// Whether `g` is inferred from `c` by equality factoring.
pub open spec fn ef_conclusion(ord: TermOrdering, c: ClauseV, g: ClauseV) -> bool {
    exists|i: int, fi: bool, j: int, fj: bool| ef_inference(ord, c, i, fi, j, fj, g)
}

/// Whether equality factoring on the literals at `i` and `j` gives nothing:
/// one of them is a disequation, or they are the same literal, or the sides
/// have no unifier, or a side condition fails under a most general unifier.
pub open spec fn ef_blocked(ord: TermOrdering, c: ClauseV, i: int, fi: bool, j: int, fj: bool) -> bool {
    ||| i == j
    ||| !c[i].positive
    ||| !c[j].positive
    ||| !unifiable(oriented(c[i], fi).0, oriented(c[j], fj).0)
    ||| exists|sub: SubstV| #[trigger]
        most_general_unifier(sub, oriented(c[i], fi).0, oriented(c[j], fj).0) && !(!ord.greater(
            oriented(c[i], fi).1.apply(sub),
            oriented(c[i], fi).0.apply(sub),
        ) && maximal_in(ord, apply_clause(c, sub), c[i].apply(sub)))
}

/// Whether equality factoring on the literals at `i` and `j` is blocked or
/// has its conclusion among the clauses of `generated` from place `from` on.
pub open spec fn ef_handled(
    ord: TermOrdering,
    c: ClauseV,
    i: int,
    fi: bool,
    j: int,
    fj: bool,
    generated: Seq<Clause>,
    from: int,
) -> bool {
    ef_blocked(ord, c, i, fi, j, fj) || exists|k: int|
        from <= k < generated.len() && ef_inference(ord, c, i, fi, j, fj, (#[trigger] generated[k])@)
}

/// Whether `before` is the beginning of `after`.
pub open spec fn grows(before: Seq<Clause>, after: Seq<Clause>) -> bool {
    &&& before.len() <= after.len()
    &&& forall|k: int| 0 <= k < before.len() ==> after[k] == before[k]
}

/// What was handled stays handled when more clauses are added.
pub proof fn lemma_ef_handled_grows(
    ord: TermOrdering,
    c: ClauseV,
    i: int,
    fi: bool,
    j: int,
    fj: bool,
    before: Seq<Clause>,
    after: Seq<Clause>,
    from: int,
)
    requires
        ef_handled(ord, c, i, fi, j, fj, before, from),
        grows(before, after),
        0 <= from,
    ensures
        ef_handled(ord, c, i, fi, j, fj, after, from),
{
    if !ef_blocked(ord, c, i, fi, j, fj) {
        let k = choose|k: int|
            from <= k < before.len() && ef_inference(ord, c, i, fi, j, fj, (#[trigger] before[k])@);
        assert(after[k] == before[k]);
    }
}

/// A model of the premise is a model of the conclusion.
pub proof fn lemma_ef_sound(ord: TermOrdering, c: ClauseV, g: ClauseV, m: Interpretation)
    requires
        ef_conclusion(ord, c, g),
        models(m, c),
    ensures
        models(m, g),
{
    let (i, fi, j, fj) = choose|i: int, fi: bool, j: int, fj: bool|
        ef_inference(ord, c, i, fi, j, fj, g);
    let sub = choose|sub: SubstV| ef_step(ord, c, i, fi, j, fj, sub, g);
    let (s, t) = oriented(c[i], fi);
    let (u, v2) = oriented(c[j], fj);
    let extra = LiteralV { positive: false, lhs: t, rhs: v2 };
    let d = c.remove(i).push(extra);
    assert forall|v: Valuation| #[trigger] clause_holds(g, m, v) by {
        let w = pull(sub, m, v);
        lemma_clause_apply(d, sub, m, v);
        assert(clause_holds(c, m, w));
        let k = choose|k: int| 0 <= k < c.len() && literal_holds(#[trigger] c[k], m, w);
        let jj = if j < i {
            j
        } else {
            j - 1
        };
        assert(d[jj] == c[j]);
        assert(d[c.len() - 1] == extra);
        if k < i {
            assert(d[k] == c[k]);
        } else if k > i {
            assert(d[k - 1] == c[k]);
        } else {
            lemma_eval_apply(s, sub, m, v);
            lemma_eval_apply(u, sub, m, v);
            assert(eval(s, m, w) == eval(u, m, w));
            assert(eval(s, m, w) == eval(t, m, w));
            if eval(t, m, w) == eval(v2, m, w) {
                assert(literal_holds(c[j], m, w));
                assert(literal_holds(d[jj], m, w));
            } else {
                assert(literal_holds(d[c.len() - 1], m, w));
            }
        }
        assert(clause_holds(d, m, w));
    }
}

/// The conclusion of equality factoring on the literals at `i` and `j`,
/// read as `fi` and `fj` say, if there is one.
fn ef_at(term_ordering: &TermOrdering, cl: &Clause, i: usize, fi: bool, j: usize, fj: bool) -> (r:
    Option<Clause>)
    requires
        i < cl@.len(),
        j < cl@.len(),
    ensures
        match r {
            Some(g) => ef_inference(*term_ordering, cl@, i as int, fi, j as int, fj, g@),
            None => ef_blocked(*term_ordering, cl@, i as int, fi, j as int, fj),
        },
{
    let li = cl.at(i);
    let lj = cl.at(j);
    if i == j || !li.is_positive() || !lj.is_positive() {
        return None;
    }
    let (s, t) = sides(li, fi);
    let (u, v) = sides(lj, fj);
    match mgu(s, u) {
        Err(_) => {
            proof {
                assert forall|th: SubstV| !crate::unification::unifier(th, s@, u@) by {}
            }
            None
        },
        Ok(sigma) => {
            proof {
                assert(most_general_unifier(sigma@, s@, u@));
            }
            let new_s = sigma.apply(s);
            let new_t = sigma.apply(t);
            if term_ordering.gt(&new_t, &new_s) {
                return None;
            }
            let instance = cl.apply(&sigma);
            let selected = li.apply(&sigma);
            if !literal_maximal_in(term_ordering, &instance, &selected) {
                return None;
            }
            let mut new_cl = cl.clone();
            new_cl.remove(i);
            new_cl.add_literal(Literal::new(true, t.clone(), v.clone()));
            new_cl.subst(&sigma);
            proof {
                assert(new_cl@ == ef_child(cl@, i as int, fi, j as int, fj, sigma@));
                assert(ef_step(*term_ordering, cl@, i as int, fi, j as int, fj, sigma@, new_cl@));
            }
            Some(new_cl)
        },
    }
}

/// A reading of two literals of a clause: the place of the first literal,
/// whether its sides are exchanged, and the same for the second literal.
pub type Reading = (int, bool, int, bool);

/// Whether the reading `a` comes before the reading `b`: readings are
/// taken in the order of the first literal, then of the second, then
/// straight before exchanged for the first and then for the second.
pub open spec fn reading_before(a: Reading, b: Reading) -> bool {
    a.0 < b.0 || (a.0 == b.0 && (a.2 < b.2 || (a.2 == b.2 && ((!a.1 && b.1) || (a.1 == b.1
        && !a.3 && b.3)))))
}

/// Whether the clauses of `generated` from place `from` on are the
/// conclusions of equality factoring on `c` for the readings `idx`, one
/// for each reading and in the order of the readings, and every other
/// reading before `bound` is blocked.
pub open spec fn ef_places(
    ord: TermOrdering,
    c: ClauseV,
    generated: Seq<Clause>,
    from: int,
    idx: Seq<Reading>,
    bound: Reading,
) -> bool {
    &&& generated.len() == from + idx.len()
    &&& forall|k: int|
        0 <= k < idx.len() ==> reading_before(#[trigger] idx[k], bound) && ef_inference(
            ord,
            c,
            idx[k].0,
            idx[k].1,
            idx[k].2,
            idx[k].3,
            generated[from + k]@,
        )
    &&& forall|k: int, l: int|
        0 <= k < l < idx.len() ==> reading_before(#[trigger] idx[k], #[trigger] idx[l])
    &&& forall|i: int, fi: bool, j: int, fj: bool|
        0 <= i < c.len() && 0 <= j < c.len() && reading_before((i, fi, j, fj), bound)
            && !idx.contains((i, fi, j, fj)) ==> #[trigger] ef_blocked(ord, c, i, fi, j, fj)
}

/// Whether `next` is the reading right after `cur` among the readings of
/// the literals of a clause with `n` literals.
pub open spec fn next_reading(cur: Reading, next: Reading, n: int) -> bool {
    forall|i: int, fi: bool, j: int, fj: bool|
        0 <= i < n && 0 <= j < n ==> (#[trigger] reading_before((i, fi, j, fj), next)
            <==> reading_before((i, fi, j, fj), cur) || (i, fi, j, fj) == cur)
}

/// Adds the conclusion for one reading of the two literals, if there is one.
fn ef_try(
    term_ordering: &TermOrdering,
    cl: &Clause,
    i: usize,
    fi: bool,
    j: usize,
    fj: bool,
    generated: &mut Vec<Clause>,
    start: Ghost<int>,
    idx: Ghost<Seq<Reading>>,
    next: Ghost<Reading>,
) -> (places: Ghost<Seq<Reading>>)
    requires
        i < cl@.len(),
        j < cl@.len(),
        ef_places(
            *term_ordering,
            cl@,
            old(generated)@,
            start@,
            idx@,
            (i as int, fi, j as int, fj),
        ),
        next_reading((i as int, fi, j as int, fj), next@, cl@.len() as int),
        0 <= start@ <= old(generated)@.len(),
        forall|k: int|
            start@ <= k < old(generated)@.len() ==> ef_conclusion(
                *term_ordering,
                cl@,
                (#[trigger] old(generated)@[k])@,
            ),
    ensures
        grows(old(generated)@, final(generated)@),
        final(generated)@.len() <= old(generated)@.len() + 1,
        forall|k: int|
            start@ <= k < final(generated)@.len() ==> ef_conclusion(
                *term_ordering,
                cl@,
                (#[trigger] final(generated)@[k])@,
            ),
        ef_handled(*term_ordering, cl@, i as int, fi, j as int, fj, final(generated)@, start@),
        ef_places(*term_ordering, cl@, final(generated)@, start@, places@, next@),
{
    let ghost cur = (i as int, fi, j as int, fj);
    let ghost ord = *term_ordering;
    match ef_at(term_ordering, cl, i, fi, j, fj) {
        Some(g) => {
            let ghost before = generated@;
            generated.push(g);
            let ghost longer = idx@.push(cur);
            proof {
                assert(reading_before(cur, next@));
                assert forall|k: int| 0 <= k < longer.len() implies reading_before(
                    #[trigger] longer[k],
                    next@,
                ) && ef_inference(
                    ord,
                    cl@,
                    longer[k].0,
                    longer[k].1,
                    longer[k].2,
                    longer[k].3,
                    generated@[start@ + k]@,
                ) by {
                    if k < idx@.len() {
                        assert(longer[k] == idx@[k]);
                        assert(generated@[start@ + k] == before[start@ + k]);
                        assert(reading_before(idx@[k], cur));
                    }
                }
                assert forall|k: int, l: int| 0 <= k < l < longer.len() implies reading_before(
                    #[trigger] longer[k],
                    #[trigger] longer[l],
                ) by {
                    assert(longer[k] == idx@[k]);
                    if l < idx@.len() {
                        assert(longer[l] == idx@[l]);
                    }
                }
                assert forall|a: int, fa: bool, b: int, fb: bool|
                    0 <= a < cl@.len() && 0 <= b < cl@.len() && reading_before(
                        (a, fa, b, fb),
                        next@,
                    ) && !longer.contains((a, fa, b, fb)) implies #[trigger] ef_blocked(
                    ord,
                    cl@,
                    a,
                    fa,
                    b,
                    fb,
                ) by {
                    if (a, fa, b, fb) == cur {
                        assert(longer[idx@.len() as int] == cur);
                    } else {
                        if idx@.contains((a, fa, b, fb)) {
                            let k = choose|k: int| 0 <= k < idx@.len() && idx@[k] == (a, fa, b, fb);
                            assert(longer[k] == (a, fa, b, fb));
                        }
                    }
                }
                assert(ef_places(ord, cl@, generated@, start@, longer, next@));
            }
            proof {
                let k = before.len() as int;
                assert(ef_inference(*term_ordering, cl@, i as int, fi, j as int, fj, generated@[k]@));
                assert(ef_conclusion(*term_ordering, cl@, generated@[k]@));
                assert forall|k: int| start@ <= k < generated@.len() implies ef_conclusion(
                    *term_ordering,
                    cl@,
                    (#[trigger] generated@[k])@,
                ) by {
                    if k < before.len() {
                        assert(generated@[k] == before[k]);
                    }
                }
            }
            Ghost(longer)
        },
        None => {
            proof {
                assert forall|k: int| 0 <= k < idx@.len() implies reading_before(
                    #[trigger] idx@[k],
                    next@,
                ) by {
                    assert(reading_before(idx@[k], cur));
                }
            }
            idx
        },
    }
}

/// Whether every reading of the literals at `i` and `j` was handled.
pub open spec fn ef_pair_handled(
    ord: TermOrdering,
    c: ClauseV,
    i: int,
    j: int,
    generated: Seq<Clause>,
    from: int,
) -> bool {
    forall|fi: bool, fj: bool| #[trigger] ef_handled(ord, c, i, fi, j, fj, generated, from)
}

/// Adds the conclusions for the four readings of the two literals.
fn ef_pair(
    term_ordering: &TermOrdering,
    cl: &Clause,
    i: usize,
    j: usize,
    generated: &mut Vec<Clause>,
    start: Ghost<int>,
    idx: Ghost<Seq<Reading>>,
) -> (places: Ghost<Seq<Reading>>)
    requires
        i < cl@.len(),
        j < cl@.len(),
        0 <= start@ <= old(generated)@.len(),
        ef_places(
            *term_ordering,
            cl@,
            old(generated)@,
            start@,
            idx@,
            (i as int, false, j as int, false),
        ),
        forall|k: int|
            start@ <= k < old(generated)@.len() ==> ef_conclusion(
                *term_ordering,
                cl@,
                (#[trigger] old(generated)@[k])@,
            ),
    ensures
        grows(old(generated)@, final(generated)@),
        forall|k: int|
            start@ <= k < final(generated)@.len() ==> ef_conclusion(
                *term_ordering,
                cl@,
                (#[trigger] final(generated)@[k])@,
            ),
        ef_pair_handled(*term_ordering, cl@, i as int, j as int, final(generated)@, start@),
        ef_places(
            *term_ordering,
            cl@,
            final(generated)@,
            start@,
            places@,
            (i as int, false, j + 1, false),
        ),
{
    let ghost ord = *term_ordering;
    let ghost (ii, jj) = (i as int, j as int);
    let ghost n = cl@.len() as int;
    proof {
        assert(next_reading((ii, false, jj, false), (ii, false, jj, true), n));
        assert(next_reading((ii, false, jj, true), (ii, true, jj, false), n));
        assert(next_reading((ii, true, jj, false), (ii, true, jj, true), n));
        assert(next_reading((ii, true, jj, true), (ii, false, jj + 1, false), n));
    }
    let p1 = ef_try(
        term_ordering,
        cl,
        i,
        false,
        j,
        false,
        generated,
        start,
        idx,
        Ghost((ii, false, jj, true)),
    );
    let ghost g1 = generated@;
    let p2 = ef_try(
        term_ordering,
        cl,
        i,
        false,
        j,
        true,
        generated,
        start,
        p1,
        Ghost((ii, true, jj, false)),
    );
    let ghost g2 = generated@;
    let p3 = ef_try(
        term_ordering,
        cl,
        i,
        true,
        j,
        false,
        generated,
        start,
        p2,
        Ghost((ii, true, jj, true)),
    );
    let ghost g3 = generated@;
    let p4 = ef_try(
        term_ordering,
        cl,
        i,
        true,
        j,
        true,
        generated,
        start,
        p3,
        Ghost((ii, false, jj + 1, false)),
    );
    proof {
        let g4 = generated@;
        assert(grows(g1, g4) && grows(g2, g4) && grows(g3, g4));
        lemma_ef_handled_grows(ord, cl@, ii, false, jj, false, g1, g4, start@);
        lemma_ef_handled_grows(ord, cl@, ii, false, jj, true, g2, g4, start@);
        lemma_ef_handled_grows(ord, cl@, ii, true, jj, false, g3, g4, start@);
        assert forall|fi: bool, fj: bool| #[trigger]
            ef_handled(ord, cl@, ii, fi, jj, fj, g4, start@) by {}
    }
    p4
}

/// Adds to `generated` the conclusions of equality factoring on the
/// literals of the clause and yields their number.
///
/// From `C \/ s = t \/ u = v`, with a most general unifier of `s` and `u`,
/// the instance of `C \/ t != v \/ u = v` is inferred where the instance of
/// `t` is not greater than that of `s` and no literal of the instance of the
/// premise is greater than the instance of `s = t`. Each pair of literals,
/// in each reading of their sides, is either blocked or has its conclusion
/// among the clauses that were added.
pub fn equality_factoring(
    term_ordering: &TermOrdering,
    cl: &Clause,
    generated: &mut Vec<Clause>,
) -> (ef_count: usize)
    ensures
        grows(old(generated)@, final(generated)@),
        final(generated)@.len() == old(generated)@.len() + ef_count,
        forall|k: int|
            old(generated)@.len() <= k < final(generated)@.len() ==> ef_conclusion(
                *term_ordering,
                cl@,
                (#[trigger] final(generated)@[k])@,
            ),
        forall|i: int, j: int|
            0 <= i < cl@.len() && 0 <= j < cl@.len() ==> #[trigger] ef_pair_handled(
                *term_ordering,
                cl@,
                i,
                j,
                final(generated)@,
                old(generated)@.len() as int,
            ),
        exists|idx: Seq<Reading>|
            idx.len() == ef_count && #[trigger] ef_places(
                *term_ordering,
                cl@,
                final(generated)@,
                old(generated)@.len() as int,
                idx,
                (cl@.len() as int, false, 0, false),
            ),
{
    let ghost ord = *term_ordering;
    let ghost start = generated@.len() as int;
    let ghost mut idx: Seq<Reading> = Seq::empty();
    let first = generated.len();
    let n = cl.size();
    let mut i: usize = 0;
    while i < n
        invariant
            0 <= i <= n,
            n == cl@.len(),
            ord == *term_ordering,
            start == old(generated)@.len(),
            first == start,
            grows(old(generated)@, generated@),
            ef_places(ord, cl@, generated@, start, idx, (i as int, false, 0, false)),
            forall|k: int|
                start <= k < generated@.len() ==> ef_conclusion(ord, cl@, (#[trigger] generated@[k])@),
            forall|a: int, b: int|
                0 <= a < i && 0 <= b < n ==> #[trigger] ef_pair_handled(
                    ord,
                    cl@,
                    a,
                    b,
                    generated@,
                    start,
                ),
        decreases n - i,
    {
        let mut j: usize = 0;
        while j < n
            invariant
                0 <= j <= n,
                i < n,
                n == cl@.len(),
                ord == *term_ordering,
                start == old(generated)@.len(),
                grows(old(generated)@, generated@),
                ef_places(ord, cl@, generated@, start, idx, (i as int, false, j as int, false)),
                forall|k: int|
                    start <= k < generated@.len() ==> ef_conclusion(
                        ord,
                        cl@,
                        (#[trigger] generated@[k])@,
                    ),
                forall|a: int, b: int|
                    0 <= a < i && 0 <= b < n ==> #[trigger] ef_pair_handled(
                        ord,
                        cl@,
                        a,
                        b,
                        generated@,
                        start,
                    ),
                forall|b: int|
                    0 <= b < j ==> #[trigger] ef_pair_handled(ord, cl@, i as int, b, generated@, start),
            decreases n - j,
        {
            let ghost before = generated@;
            let places = ef_pair(term_ordering, cl, i, j, generated, Ghost(start), Ghost(idx));
            proof {
                idx = places@;
                let after = generated@;
                assert forall|a: int, b: int|
                    (0 <= a < i && 0 <= b < n) || (a == i && 0 <= b < j) implies #[trigger] ef_pair_handled(
                    ord,
                    cl@,
                    a,
                    b,
                    after,
                    start,
                ) by {
                    assert(ef_pair_handled(ord, cl@, a, b, before, start));
                    assert forall|fi: bool, fj: bool| #[trigger]
                        ef_handled(ord, cl@, a, fi, b, fj, after, start) by {
                        assert(ef_handled(ord, cl@, a, fi, b, fj, before, start));
                        lemma_ef_handled_grows(ord, cl@, a, fi, b, fj, before, after, start);
                    }
                }
            }
            j += 1;
        }
        proof {
            let from = (i as int, false, n as int, false);
            let to = (i + 1, false, 0int, false);
            assert forall|k: int| 0 <= k < idx.len() implies reading_before(
                #[trigger] idx[k],
                to,
            ) by {
                assert(reading_before(idx[k], from));
            }
        }
        i += 1;
    }
    generated.len() - first
}

/// What was handled among the clauses from one place on is handled among
/// more clauses from an earlier place on.
pub proof fn lemma_ef_pair_transfer(
    ord: TermOrdering,
    c: ClauseV,
    i: int,
    j: int,
    before: Seq<Clause>,
    after: Seq<Clause>,
    from: int,
    start: int,
)
    requires
        ef_pair_handled(ord, c, i, j, before, from),
        grows(before, after),
        0 <= start <= from,
    ensures
        ef_pair_handled(ord, c, i, j, after, start),
{
    assert forall|fi: bool, fj: bool| #[trigger]
        ef_handled(ord, c, i, fi, j, fj, after, start) by {
        assert(ef_handled(ord, c, i, fi, j, fj, before, from));
        if !ef_blocked(ord, c, i, fi, j, fj) {
            let k = choose|k: int|
                from <= k < before.len() && ef_inference(
                    ord,
                    c,
                    i,
                    fi,
                    j,
                    fj,
                    (#[trigger] before[k])@,
                );
            assert(after[k] == before[k]);
        }
    }
}

} // verus!
