//! Superposition, into equations and into disequations.
use crate::clause::{apply_clause, Clause, ClauseV};
use crate::inference::equality_factoring::{grows, oriented, reading_before, sides, Reading};
use crate::inference::maximality::{
    literal_maximal_in, literal_strictly_maximal_in, maximal_in, most_general_unifier,
    strictly_maximal_in, unifiable,
};
use crate::literal::{Literal, LiteralV};
use crate::ordering::term_ordering::TermOrdering;
use crate::position::{
    path_view, paths, positions_from, replace_at, subterm_at, valid_position,
};
use crate::semantics::{
    clause_holds, eval, lemma_clause_apply, lemma_eval_apply, lemma_replace_eval, literal_holds,
    models, pull, Interpretation, Valuation,
};
use crate::term::{SubstV, TermV};
use crate::unification::mgu;
use vstd::prelude::*;

verus! {

/// Where a superposition inference is made: the equation `l = r` is the
/// `from`-th literal of the first premise, read as `flip_from` says; the
/// subterm is at the end of `path` in the left side of the `into`-th literal
/// of the second premise, read as `flip_into` says.
pub struct Place {
    pub from: int,
    pub flip_from: bool,
    pub into: int,
    pub flip_into: bool,
    pub path: Seq<int>,
}

/// The literal of the second premise with the subterm replaced by `r`.
pub open spec fn sup_rewritten(c2: ClauseV, at: Place, r: TermV) -> LiteralV {
    LiteralV {
        positive: c2[at.into].positive,
        lhs: replace_at(oriented(c2[at.into], at.flip_into).0, at.path, r),
        rhs: oriented(c2[at.into], at.flip_into).1,
    }
}

/// The conclusion of superposition at a place under `sub`: the instance of
/// the other literals of both premises and of the rewritten literal.
pub open spec fn sup_child(c1: ClauseV, c2: ClauseV, at: Place, sub: SubstV) -> ClauseV {
    apply_clause(
        (c1.remove(at.from) + c2.remove(at.into)).push(
            sup_rewritten(c2, at, oriented(c1[at.from], at.flip_from).1),
        ),
        sub,
    )
}

/// Whether the place makes sense in the premises: the literals are there,
/// the first is an equation, and the path leads to a subterm that is not a
/// variable.
pub open spec fn sup_place(c1: ClauseV, c2: ClauseV, at: Place) -> bool {
    &&& 0 <= at.from < c1.len()
    &&& 0 <= at.into < c2.len()
    &&& c1[at.from].positive
    &&& valid_position(oriented(c2[at.into], at.flip_into).0, at.path)
    &&& subterm_at(oriented(c2[at.into], at.flip_into).0, at.path) is Fun
}

/// The subterm that is superposed into.
pub open spec fn sup_target(c2: ClauseV, at: Place) -> TermV {
    subterm_at(oriented(c2[at.into], at.flip_into).0, at.path)
}

/// The side conditions of superposition under `sub`: the instance of `r` is
/// not greater than that of `l`; no other literal of the instance of the
/// first premise is the instance of `l = r` or greater; no other literal of
/// the instance of the second premise is greater than the instance of the
/// literal that is superposed into; and where that literal is an equation,
/// the instance of its other side is not greater than that of the side that
/// is superposed into.
pub open spec fn sup_conditions(
    ord: TermOrdering,
    c1: ClauseV,
    c2: ClauseV,
    at: Place,
    sub: SubstV,
) -> bool {
    let (l, r) = oriented(c1[at.from], at.flip_from);
    let (a, b) = oriented(c2[at.into], at.flip_into);
    &&& !ord.greater(r.apply(sub), l.apply(sub))
    &&& strictly_maximal_in(ord, apply_clause(c1, sub).remove(at.from), c1[at.from].apply(sub))
    &&& maximal_in(ord, apply_clause(c2, sub).remove(at.into), c2[at.into].apply(sub))
    &&& (c2[at.into].positive ==> !ord.greater(b.apply(sub), a.apply(sub)))
}

/// Whether `g` is inferred by superposition at a place under `sub`.
pub open spec fn sup_step(
    ord: TermOrdering,
    c1: ClauseV,
    c2: ClauseV,
    at: Place,
    sub: SubstV,
    g: ClauseV,
) -> bool {
    &&& sup_place(c1, c2, at)
    &&& most_general_unifier(sub, oriented(c1[at.from], at.flip_from).0, sup_target(c2, at))
    &&& sup_conditions(ord, c1, c2, at, sub)
    &&& g == sup_child(c1, c2, at, sub)
}

/// Whether `g` is inferred by superposition at a place.
pub open spec fn sup_inference(
    ord: TermOrdering,
    c1: ClauseV,
    c2: ClauseV,
    at: Place,
    g: ClauseV,
) -> bool {
    exists|sub: SubstV| sup_step(ord, c1, c2, at, sub, g)
}

/// Whether `g` is inferred by superposition from `c1` into `c2`.
pub open spec fn sup_conclusion(ord: TermOrdering, c1: ClauseV, c2: ClauseV, g: ClauseV) -> bool {
    exists|at: Place| sup_inference(ord, c1, c2, at, g)
}

/// Whether superposition at a place gives nothing: the terms have no
/// unifier, or a side condition fails under a most general unifier.
pub open spec fn sup_blocked(ord: TermOrdering, c1: ClauseV, c2: ClauseV, at: Place) -> bool {
    ||| !unifiable(oriented(c1[at.from], at.flip_from).0, sup_target(c2, at))
    ||| exists|sub: SubstV| #[trigger]
        most_general_unifier(sub, oriented(c1[at.from], at.flip_from).0, sup_target(c2, at))
            && !sup_conditions(ord, c1, c2, at, sub)
}

/// Whether superposition at a place is blocked or has its conclusion among
/// the clauses of `generated` from place `start` on.
pub open spec fn sup_handled(
    ord: TermOrdering,
    c1: ClauseV,
    c2: ClauseV,
    at: Place,
    generated: Seq<Clause>,
    start: int,
) -> bool {
    sup_blocked(ord, c1, c2, at) || exists|k: int|
        start <= k < generated.len() && sup_inference(ord, c1, c2, at, (#[trigger] generated[k])@)
}

/// Whether every clause of `generated` from place `start` on is inferred by
/// superposition from `c1` into `c2`.
pub open spec fn sup_all(
    ord: TermOrdering,
    c1: ClauseV,
    c2: ClauseV,
    generated: Seq<Clause>,
    start: int,
) -> bool {
    forall|k: int|
        start <= k < generated.len() ==> sup_conclusion(ord, c1, c2, (#[trigger] generated[k])@)
}

/// What was handled stays handled when more clauses are added.
pub proof fn lemma_sup_handled_grows(
    ord: TermOrdering,
    c1: ClauseV,
    c2: ClauseV,
    at: Place,
    before: Seq<Clause>,
    after: Seq<Clause>,
    start: int,
)
    requires
        sup_handled(ord, c1, c2, at, before, start),
        grows(before, after),
        0 <= start,
    ensures
        sup_handled(ord, c1, c2, at, after, start),
{
    if !sup_blocked(ord, c1, c2, at) {
        let k = choose|k: int|
            start <= k < before.len() && sup_inference(ord, c1, c2, at, (#[trigger] before[k])@);
        assert(after[k] == before[k]);
    }
}

/// A model of both premises is a model of the conclusion.
pub proof fn lemma_sup_sound(
    ord: TermOrdering,
    c1: ClauseV,
    c2: ClauseV,
    g: ClauseV,
    m: Interpretation,
)
    requires
        sup_conclusion(ord, c1, c2, g),
        models(m, c1),
        models(m, c2),
    ensures
        models(m, g),
{
    let at = choose|at: Place| sup_inference(ord, c1, c2, at, g);
    let sub = choose|sub: SubstV| sup_step(ord, c1, c2, at, sub, g);
    let (l, r) = oriented(c1[at.from], at.flip_from);
    let (a, b) = oriented(c2[at.into], at.flip_into);
    let u = sup_target(c2, at);
    let lit = sup_rewritten(c2, at, r);
    let r1 = c1.remove(at.from);
    let r2 = c2.remove(at.into);
    let d = (r1 + r2).push(lit);
    assert forall|v: Valuation| #[trigger] clause_holds(g, m, v) by {
        let w = pull(sub, m, v);
        lemma_clause_apply(d, sub, m, v);
        assert(clause_holds(c1, m, w));
        assert(clause_holds(c2, m, w));
        let k1 = choose|k: int| 0 <= k < c1.len() && literal_holds(#[trigger] c1[k], m, w);
        let k2 = choose|k: int| 0 <= k < c2.len() && literal_holds(#[trigger] c2[k], m, w);
        if k1 != at.from {
            let k = if k1 < at.from {
                k1
            } else {
                k1 - 1
            };
            assert(d[k] == c1[k1]);
        } else if k2 != at.into {
            let k = if k2 < at.into {
                k2
            } else {
                k2 - 1
            };
            assert(d[r1.len() + k] == c2[k2]);
        } else {
            lemma_eval_apply(l, sub, m, v);
            lemma_eval_apply(u, sub, m, v);
            assert(eval(u, m, w) == eval(r, m, w));
            lemma_replace_eval(a, at.path, r, m, w);
            assert(d[(r1.len() + r2.len()) as int] == lit);
            assert(literal_holds(lit, m, w));
        }
        assert(clause_holds(d, m, w));
    }
}

/// The place as a mathematical object.
pub open spec fn place(i: usize, fi: bool, j: usize, fj: bool, p: Seq<usize>) -> Place {
    Place { from: i as int, flip_from: fi, into: j as int, flip_into: fj, path: path_view(p) }
}

/// The conclusion of superposition at a place, if there is one.
fn sup_at(
    term_ordering: &TermOrdering,
    c1: &Clause,
    i: usize,
    fi: bool,
    c2: &Clause,
    j: usize,
    fj: bool,
    p: &Vec<usize>,
) -> (r: Option<Clause>)
    requires
        sup_place(c1@, c2@, place(i, fi, j, fj, p@)),
    ensures
        match r {
            Some(g) => sup_inference(*term_ordering, c1@, c2@, place(i, fi, j, fj, p@), g@),
            None => sup_blocked(*term_ordering, c1@, c2@, place(i, fi, j, fj, p@)),
        },
{
    let ghost at = place(i, fi, j, fj, p@);
    let l1 = c1.at(i);
    let l2 = c2.at(j);
    let (l, r) = sides(l1, fi);
    let (a, b) = sides(l2, fj);
    proof {
        assert(path_view(p@).skip(0) =~= path_view(p@));
    }
    let u = a.subterm_at(p, 0);
    match mgu(l, u) {
        Err(_) => {
            proof {
                assert forall|th: SubstV| !crate::unification::unifier(th, l@, u@) by {}
            }
            None
        },
        Ok(sigma) => {
            proof {
                assert(most_general_unifier(sigma@, l@, u@));
            }
            let new_l = sigma.apply(l);
            let new_r = sigma.apply(r);
            if term_ordering.gt(&new_r, &new_l) {
                return None;
            }
            let mut rest1 = c1.apply(&sigma);
            let sel1 = rest1.remove(i);
            if !literal_strictly_maximal_in(term_ordering, &rest1, &sel1) {
                return None;
            }
            let mut rest2 = c2.apply(&sigma);
            let sel2 = rest2.remove(j);
            if !literal_maximal_in(term_ordering, &rest2, &sel2) {
                return None;
            }
            if l2.is_positive() {
                let new_a = sigma.apply(a);
                let new_b = sigma.apply(b);
                if term_ordering.gt(&new_b, &new_a) {
                    return None;
                }
            }
            let new_side = a.replace_at(p, 0, r);
            let new_lit = Literal::new(l2.is_negative(), new_side, b.clone());
            let mut child = c1.clone();
            child.remove(i);
            let mut other = c2.clone();
            other.remove(j);
            child.add_literals(other);
            child.add_literal(new_lit);
            child.subst(&sigma);
            proof {
                assert(sup_conditions(*term_ordering, c1@, c2@, at, sigma@));
                assert(child@ == sup_child(c1@, c2@, at, sigma@));
                assert(sup_step(*term_ordering, c1@, c2@, at, sigma@, child@));
            }
            Some(child)
        },
    }
}

/// A spot of a superposition inference: the reading of the two literals
/// and the number of the subterm among the subterms of the side that is
/// superposed into, as `positions_from` lists them.
pub type Spot = (Reading, int);

/// The paths to the subterms that a reading lets superpose into.
pub open spec fn spot_paths(c2: ClauseV, r: Reading) -> Seq<Seq<int>> {
    positions_from(oriented(c2[r.2], r.3).0, Seq::empty())
}

/// Whether the spot is one of the premises: the literals are there, the
/// first is an equation, and the subterm is listed.
pub open spec fn spot_valid(c1: ClauseV, c2: ClauseV, s: Spot) -> bool {
    &&& 0 <= s.0.0 < c1.len()
    &&& c1[s.0.0].positive
    &&& 0 <= s.0.2 < c2.len()
    &&& 0 <= s.1 < spot_paths(c2, s.0).len()
}

/// The place of a spot.
pub open spec fn spot_place(c2: ClauseV, s: Spot) -> Place {
    Place {
        from: s.0.0,
        flip_from: s.0.1,
        into: s.0.2,
        flip_into: s.0.3,
        path: spot_paths(c2, s.0)[s.1],
    }
}

/// Whether the spot `a` comes before the spot `b`: in the order of the
/// readings, and for one reading in the order of the subterms.
pub open spec fn spot_before(a: Spot, b: Spot) -> bool {
    reading_before(a.0, b.0) || (a.0 == b.0 && a.1 < b.1)
}

/// Whether the clauses of `generated` from place `from` on are the
/// conclusions of superposition from `c1` into `c2` at the spots `idx`,
/// one for each spot and in the order of the spots, and every other spot
/// before `bound` is blocked.
pub open spec fn sup_places(
    ord: TermOrdering,
    c1: ClauseV,
    c2: ClauseV,
    generated: Seq<Clause>,
    from: int,
    idx: Seq<Spot>,
    bound: Spot,
) -> bool {
    &&& generated.len() == from + idx.len()
    &&& forall|k: int|
        0 <= k < idx.len() ==> spot_before(#[trigger] idx[k], bound) && spot_valid(c1, c2, idx[k])
            && sup_inference(ord, c1, c2, spot_place(c2, idx[k]), generated[from + k]@)
    &&& forall|k: int, l: int|
        0 <= k < l < idx.len() ==> spot_before(#[trigger] idx[k], #[trigger] idx[l])
    &&& forall|s: Spot|
        spot_valid(c1, c2, s) && spot_before(s, bound) && !idx.contains(s) ==> #[trigger] sup_blocked(
            ord,
            c1,
            c2,
            spot_place(c2, s),
        )
}

/// Whether the spots before `a` are those before `b`, as far as they are
/// spots of the premises.
pub open spec fn same_spots_before(c1: ClauseV, c2: ClauseV, a: Spot, b: Spot) -> bool {
    forall|s: Spot| spot_valid(c1, c2, s) ==> (#[trigger] spot_before(s, a) <==> spot_before(s, b))
}

/// The conclusions at the spots before one bound are those before another
/// bound with the same spots before it.
pub proof fn lemma_sup_places_bound(
    ord: TermOrdering,
    c1: ClauseV,
    c2: ClauseV,
    generated: Seq<Clause>,
    from: int,
    idx: Seq<Spot>,
    a: Spot,
    b: Spot,
)
    requires
        sup_places(ord, c1, c2, generated, from, idx, a),
        same_spots_before(c1, c2, a, b),
    ensures
        sup_places(ord, c1, c2, generated, from, idx, b),
{
    assert forall|k: int| 0 <= k < idx.len() implies spot_before(#[trigger] idx[k], b) by {
        assert(spot_valid(c1, c2, idx[k]) && spot_before(idx[k], a));
    }
    assert forall|s: Spot|
        spot_valid(c1, c2, s) && spot_before(s, b) && !idx.contains(s) implies #[trigger] sup_blocked(
        ord,
        c1,
        c2,
        spot_place(c2, s),
    ) by {
        assert(spot_before(s, a));
    }
}

/// Whether every place in the left side of the `j`-th literal of `c2`, read
/// as `fj` says, was handled for the equation at `i`, read as `fi` says.
pub open spec fn sup_side_handled(
    ord: TermOrdering,
    c1: ClauseV,
    i: int,
    fi: bool,
    c2: ClauseV,
    j: int,
    fj: bool,
    generated: Seq<Clause>,
    start: int,
) -> bool {
    forall|q: Seq<int>|
        #![trigger sup_handled(ord, c1, c2, Place { from: i, flip_from: fi, into: j, flip_into: fj, path: q }, generated, start)]
        sup_place(c1, c2, Place { from: i, flip_from: fi, into: j, flip_into: fj, path: q })
            ==> sup_handled(
            ord,
            c1,
            c2,
            Place { from: i, flip_from: fi, into: j, flip_into: fj, path: q },
            generated,
            start,
        )
}

/// What was handled stays handled when more clauses are added.
proof fn lemma_sup_side_grows(
    ord: TermOrdering,
    c1: ClauseV,
    i: int,
    fi: bool,
    c2: ClauseV,
    j: int,
    fj: bool,
    before: Seq<Clause>,
    after: Seq<Clause>,
    start: int,
)
    requires
        sup_side_handled(ord, c1, i, fi, c2, j, fj, before, start),
        grows(before, after),
        0 <= start,
    ensures
        sup_side_handled(ord, c1, i, fi, c2, j, fj, after, start),
{
    assert forall|q: Seq<int>|
        #![trigger sup_handled(ord, c1, c2, Place { from: i, flip_from: fi, into: j, flip_into: fj, path: q }, after, start)]
        sup_place(
            c1,
            c2,
            Place { from: i, flip_from: fi, into: j, flip_into: fj, path: q },
        ) implies sup_handled(
        ord,
        c1,
        c2,
        Place { from: i, flip_from: fi, into: j, flip_into: fj, path: q },
        after,
        start,
    ) by {
        let at = Place { from: i, flip_from: fi, into: j, flip_into: fj, path: q };
        assert(sup_handled(ord, c1, c2, at, before, start));
        lemma_sup_handled_grows(ord, c1, c2, at, before, after, start);
    }
}

/// Adds the conclusions of superposition with the equation at `i`, read as
/// `fi` says, into the subterms of the left side of the literal at `j`,
/// read as `fj` says.
fn sup_side(
    term_ordering: &TermOrdering,
    c1: &Clause,
    i: usize,
    fi: bool,
    c2: &Clause,
    j: usize,
    fj: bool,
    generated: &mut Vec<Clause>,
    start: Ghost<int>,
    idx: Ghost<Seq<Spot>>,
) -> (spots: Ghost<Seq<Spot>>)
    requires
        i < c1@.len(),
        j < c2@.len(),
        c1@[i as int].positive,
        0 <= start@ <= old(generated)@.len(),
        sup_all(*term_ordering, c1@, c2@, old(generated)@, start@),
        sup_places(
            *term_ordering,
            c1@,
            c2@,
            old(generated)@,
            start@,
            idx@,
            ((i as int, fi, j as int, fj), 0),
        ),
    ensures
        grows(old(generated)@, final(generated)@),
        sup_all(*term_ordering, c1@, c2@, final(generated)@, start@),
        sup_places(
            *term_ordering,
            c1@,
            c2@,
            final(generated)@,
            start@,
            spots@,
            ((i as int, fi, j as int, fj), spot_paths(c2@, (i as int, fi, j as int, fj)).len() as int),
        ),
        sup_side_handled(
            *term_ordering,
            c1@,
            i as int,
            fi,
            c2@,
            j as int,
            fj,
            final(generated)@,
            start@,
        ),
{
    let ghost ord = *term_ordering;
    let ghost rd: Reading = (i as int, fi, j as int, fj);
    let ghost mut spots: Seq<Spot> = idx@;
    let (a, b) = sides(c2.at(j), fj);
    let ps = a.positions();
    let n = ps.len();
    let mut k: usize = 0;
    while k < n
        invariant
            0 <= k <= n,
            n == ps@.len(),
            rd == (i as int, fi, j as int, fj),
            paths(ps@) == spot_paths(c2@, rd),
            sup_places(ord, c1@, c2@, generated@, start@, spots, (rd, k as int)),
            ord == *term_ordering,
            i < c1@.len(),
            j < c2@.len(),
            c1@[i as int].positive,
            a@ == oriented(c2@[j as int], fj).0,
            0 <= start@ <= generated@.len(),
            grows(old(generated)@, generated@),
            sup_all(ord, c1@, c2@, generated@, start@),
            forall|x: int|
                0 <= x < ps@.len() ==> valid_position(a@, path_view((#[trigger] ps@[x])@))
                    && subterm_at(a@, path_view(ps@[x]@)) is Fun,
            forall|x: int|
                0 <= x < k ==> sup_handled(
                    ord,
                    c1@,
                    c2@,
                    place(i, fi, j, fj, (#[trigger] ps@[x])@),
                    generated@,
                    start@,
                ),
        decreases n - k,
    {
        let ghost before = generated@;
        let ghost earlier = spots;
        let ghost cur: Spot = (rd, k as int);
        let ghost at = place(i, fi, j, fj, ps@[k as int]@);
        proof {
            assert(sup_place(c1@, c2@, at));
            assert(paths(ps@)[k as int] == path_view(ps@[k as int]@));
            assert(spot_place(c2@, cur) == at);
            assert(spot_valid(c1@, c2@, cur));
        }
        match sup_at(term_ordering, c1, i, fi, c2, j, fj, &ps[k]) {
            Some(g) => {
                generated.push(g);
                proof {
                    spots = earlier.push(cur);
                    let x = before.len() as int;
                    assert(sup_inference(ord, c1@, c2@, at, generated@[x]@));
                    assert(sup_conclusion(ord, c1@, c2@, generated@[x]@));
                    assert forall|y: int| start@ <= y < generated@.len() implies sup_conclusion(
                        ord,
                        c1@,
                        c2@,
                        (#[trigger] generated@[y])@,
                    ) by {
                        if y < before.len() {
                            assert(generated@[y] == before[y]);
                        }
                    }
                }
            },
            None => {},
        }
        proof {
            let next: Spot = (rd, k + 1);
            assert forall|x: int| 0 <= x < spots.len() implies spot_before(
                #[trigger] spots[x],
                next,
            ) && spot_valid(c1@, c2@, spots[x]) && sup_inference(
                ord,
                c1@,
                c2@,
                spot_place(c2@, spots[x]),
                generated@[start@ + x]@,
            ) by {
                if x < earlier.len() {
                    assert(spots[x] == earlier[x]);
                    assert(generated@[start@ + x] == before[start@ + x]);
                    assert(spot_before(earlier[x], cur));
                } else {
                    assert(spots[x] == cur);
                }
            }
            assert forall|x: int, y: int| 0 <= x < y < spots.len() implies spot_before(
                #[trigger] spots[x],
                #[trigger] spots[y],
            ) by {
                assert(spots[x] == earlier[x]);
                if y < earlier.len() {
                    assert(spots[y] == earlier[y]);
                } else {
                    assert(spots[y] == cur);
                    assert(spot_before(earlier[x], cur));
                }
            }
            assert forall|sp: Spot|
                spot_valid(c1@, c2@, sp) && spot_before(sp, next) && !spots.contains(
                    sp,
                ) implies #[trigger] sup_blocked(ord, c1@, c2@, spot_place(c2@, sp)) by {
                if sp == cur {
                    if spots.len() > earlier.len() {
                        assert(spots[earlier.len() as int] == cur);
                    }
                } else {
                    assert(spot_before(sp, cur));
                    if earlier.contains(sp) {
                        let x = choose|x: int| 0 <= x < earlier.len() && earlier[x] == sp;
                        assert(spots[x] == sp);
                    }
                }
            }
            assert(grows(before, generated@));
            assert forall|x: int| 0 <= x < k implies sup_handled(
                ord,
                c1@,
                c2@,
                place(i, fi, j, fj, (#[trigger] ps@[x])@),
                generated@,
                start@,
            ) by {
                lemma_sup_handled_grows(
                    ord,
                    c1@,
                    c2@,
                    place(i, fi, j, fj, ps@[x]@),
                    before,
                    generated@,
                    start@,
                );
            }
        }
        k += 1;
    }
    proof {
        assert forall|q: Seq<int>|
            #![trigger sup_handled(ord, c1@, c2@, Place { from: i as int, flip_from: fi, into: j as int, flip_into: fj, path: q }, generated@, start@)]
            sup_place(
                c1@,
                c2@,
                Place { from: i as int, flip_from: fi, into: j as int, flip_into: fj, path: q },
            ) implies sup_handled(
            ord,
            c1@,
            c2@,
            Place { from: i as int, flip_from: fi, into: j as int, flip_into: fj, path: q },
            generated@,
            start@,
        ) by {
            let x = choose|x: int| 0 <= x < ps@.len() && path_view((#[trigger] ps@[x])@) == q;
            assert(place(i, fi, j, fj, ps@[x]@) == Place {
                from: i as int,
                flip_from: fi,
                into: j as int,
                flip_into: fj,
                path: q,
            });
        }
    }
    Ghost(spots)
}

/// Whether every place in the `j`-th literal of `c2` was handled for the
/// equation at `i`, in every reading of both literals.
pub open spec fn sup_pair_handled(
    ord: TermOrdering,
    c1: ClauseV,
    i: int,
    c2: ClauseV,
    j: int,
    generated: Seq<Clause>,
    start: int,
) -> bool {
    forall|fi: bool, fj: bool| #[trigger]
        sup_side_handled(ord, c1, i, fi, c2, j, fj, generated, start)
}

/// Adds the conclusions of superposition with the equation at `i` into the
/// literal at `j`, in the four readings of the two literals.
fn sup_pair(
    term_ordering: &TermOrdering,
    c1: &Clause,
    i: usize,
    c2: &Clause,
    j: usize,
    generated: &mut Vec<Clause>,
    start: Ghost<int>,
    idx: Ghost<Seq<Spot>>,
) -> (spots: Ghost<Seq<Spot>>)
    requires
        i < c1@.len(),
        j < c2@.len(),
        c1@[i as int].positive,
        0 <= start@ <= old(generated)@.len(),
        sup_all(*term_ordering, c1@, c2@, old(generated)@, start@),
        sup_places(
            *term_ordering,
            c1@,
            c2@,
            old(generated)@,
            start@,
            idx@,
            ((i as int, false, j as int, false), 0),
        ),
    ensures
        grows(old(generated)@, final(generated)@),
        sup_all(*term_ordering, c1@, c2@, final(generated)@, start@),
        sup_pair_handled(*term_ordering, c1@, i as int, c2@, j as int, final(generated)@, start@),
        sup_places(
            *term_ordering,
            c1@,
            c2@,
            final(generated)@,
            start@,
            spots@,
            ((i as int, false, j + 1, false), 0),
        ),
{
    let ghost ord = *term_ordering;
    let ghost (ii, jj) = (i as int, j as int);
    let s1 = sup_side(term_ordering, c1, i, false, c2, j, false, generated, start, idx);
    let ghost g1 = generated@;
    proof {
        let r: Reading = (ii, false, jj, false);
        let a: Spot = (r, spot_paths(c2@, r).len() as int);
        let b: Spot = ((ii, false, jj, true), 0);
        assert(same_spots_before(c1@, c2@, a, b));
        lemma_sup_places_bound(ord, c1@, c2@, g1, start@, s1@, a, b);
    }
    let s2 = sup_side(term_ordering, c1, i, false, c2, j, true, generated, start, s1);
    let ghost g2 = generated@;
    proof {
        let r: Reading = (ii, false, jj, true);
        let a: Spot = (r, spot_paths(c2@, r).len() as int);
        let b: Spot = ((ii, true, jj, false), 0);
        assert(same_spots_before(c1@, c2@, a, b));
        lemma_sup_places_bound(ord, c1@, c2@, g2, start@, s2@, a, b);
    }
    let s3 = sup_side(term_ordering, c1, i, true, c2, j, false, generated, start, s2);
    let ghost g3 = generated@;
    proof {
        let r: Reading = (ii, true, jj, false);
        let a: Spot = (r, spot_paths(c2@, r).len() as int);
        let b: Spot = ((ii, true, jj, true), 0);
        assert(same_spots_before(c1@, c2@, a, b));
        lemma_sup_places_bound(ord, c1@, c2@, g3, start@, s3@, a, b);
    }
    let s4 = sup_side(term_ordering, c1, i, true, c2, j, true, generated, start, s3);
    proof {
        let r: Reading = (ii, true, jj, true);
        let a: Spot = (r, spot_paths(c2@, r).len() as int);
        let b: Spot = ((ii, false, jj + 1, false), 0);
        assert(same_spots_before(c1@, c2@, a, b));
        lemma_sup_places_bound(ord, c1@, c2@, generated@, start@, s4@, a, b);
    }
    proof {
        let g4 = generated@;
        assert(grows(g1, g4) && grows(g2, g4) && grows(g3, g4));
        lemma_sup_side_grows(ord, c1@, ii, false, c2@, jj, false, g1, g4, start@);
        lemma_sup_side_grows(ord, c1@, ii, false, c2@, jj, true, g2, g4, start@);
        lemma_sup_side_grows(ord, c1@, ii, true, c2@, jj, false, g3, g4, start@);
        assert forall|fi: bool, fj: bool| #[trigger]
            sup_side_handled(ord, c1@, ii, fi, c2@, jj, fj, g4, start@) by {}
    }
    s4
}

/// Adds to `generated` the conclusions of superposition from `c1` into `c2`
/// and yields their number.
///
/// From `C \/ l = r` and `D \/ L[u]`, where `u` is not a variable, with a
/// most general unifier of `l` and `u`, the instance of `C \/ D \/ L[r]` is
/// inferred under the side conditions of `sup_conditions`. Each equation of
/// `c1`, with each subterm of each literal of `c2` that is not a variable,
/// in each reading of the sides, is either blocked or has its conclusion
/// among the clauses that were added.
pub fn superposition(
    term_ordering: &TermOrdering,
    c1: &Clause,
    c2: &Clause,
    generated: &mut Vec<Clause>,
) -> (sup_count: usize)
    ensures
        grows(old(generated)@, final(generated)@),
        final(generated)@.len() == old(generated)@.len() + sup_count,
        sup_all(*term_ordering, c1@, c2@, final(generated)@, old(generated)@.len() as int),
        forall|i: int, j: int|
            0 <= i < c1@.len() && c1@[i].positive && 0 <= j < c2@.len() ==> #[trigger] sup_pair_handled(
                *term_ordering,
                c1@,
                i,
                c2@,
                j,
                final(generated)@,
                old(generated)@.len() as int,
            ),
        exists|idx: Seq<Spot>|
            idx.len() == sup_count && #[trigger] sup_places(
                *term_ordering,
                c1@,
                c2@,
                final(generated)@,
                old(generated)@.len() as int,
                idx,
                ((c1@.len() as int, false, 0, false), 0),
            ),
{
    let ghost ord = *term_ordering;
    let ghost start = generated@.len() as int;
    let ghost mut idx: Seq<Spot> = Seq::empty();
    let first = generated.len();
    let n1 = c1.size();
    let n2 = c2.size();
    let mut i: usize = 0;
    while i < n1
        invariant
            0 <= i <= n1,
            n1 == c1@.len(),
            n2 == c2@.len(),
            ord == *term_ordering,
            start == old(generated)@.len(),
            first == start,
            grows(old(generated)@, generated@),
            sup_places(ord, c1@, c2@, generated@, start, idx, ((i as int, false, 0, false), 0)),
            sup_all(ord, c1@, c2@, generated@, start),
            forall|a: int, b: int|
                0 <= a < i && c1@[a].positive && 0 <= b < n2 ==> #[trigger] sup_pair_handled(
                    ord,
                    c1@,
                    a,
                    c2@,
                    b,
                    generated@,
                    start,
                ),
        decreases n1 - i,
    {
        if c1.at(i).is_positive() {
            let mut j: usize = 0;
            while j < n2
                invariant
                    0 <= j <= n2,
                    i < n1,
                    n1 == c1@.len(),
                    n2 == c2@.len(),
                    c1@[i as int].positive,
                    ord == *term_ordering,
                    start == old(generated)@.len(),
                    grows(old(generated)@, generated@),
                    sup_places(
                        ord,
                        c1@,
                        c2@,
                        generated@,
                        start,
                        idx,
                        ((i as int, false, j as int, false), 0),
                    ),
                    sup_all(ord, c1@, c2@, generated@, start),
                    forall|a: int, b: int|
                        0 <= a < i && c1@[a].positive && 0 <= b < n2 ==> #[trigger] sup_pair_handled(
                            ord,
                            c1@,
                            a,
                            c2@,
                            b,
                            generated@,
                            start,
                        ),
                    forall|b: int|
                        0 <= b < j ==> #[trigger] sup_pair_handled(
                            ord,
                            c1@,
                            i as int,
                            c2@,
                            b,
                            generated@,
                            start,
                        ),
                decreases n2 - j,
            {
                let ghost before = generated@;
                let spots = sup_pair(term_ordering, c1, i, c2, j, generated, Ghost(start), Ghost(idx));
                proof {
                    idx = spots@;
                    let after = generated@;
                    assert forall|a: int, b: int|
                        (0 <= a < i && c1@[a].positive && 0 <= b < n2) || (a == i && 0 <= b
                            < j) implies #[trigger] sup_pair_handled(
                        ord,
                        c1@,
                        a,
                        c2@,
                        b,
                        after,
                        start,
                    ) by {
                        assert(sup_pair_handled(ord, c1@, a, c2@, b, before, start));
                        assert forall|fi: bool, fj: bool| #[trigger]
                            sup_side_handled(ord, c1@, a, fi, c2@, b, fj, after, start) by {
                            assert(sup_side_handled(ord, c1@, a, fi, c2@, b, fj, before, start));
                            lemma_sup_side_grows(ord, c1@, a, fi, c2@, b, fj, before, after, start);
                        }
                    }
                }
                j += 1;
            }
        }
        proof {
            let a: Spot = ((i as int, false, n2 as int, false), 0);
            let a0: Spot = ((i as int, false, 0, false), 0);
            let b: Spot = ((i + 1, false, 0, false), 0);
            if c1@[i as int].positive {
                assert(same_spots_before(c1@, c2@, a, b));
                lemma_sup_places_bound(ord, c1@, c2@, generated@, start, idx, a, b);
            } else {
                assert(same_spots_before(c1@, c2@, a0, b));
                lemma_sup_places_bound(ord, c1@, c2@, generated@, start, idx, a0, b);
            }
        }
        i += 1;
    }
    generated.len() - first
}

/// What was handled among the clauses from one place on is handled among
/// more clauses from an earlier place on.
pub proof fn lemma_sup_pair_transfer(
    ord: TermOrdering,
    c1: ClauseV,
    i: int,
    c2: ClauseV,
    j: int,
    before: Seq<Clause>,
    after: Seq<Clause>,
    from: int,
    start: int,
)
    requires
        sup_pair_handled(ord, c1, i, c2, j, before, from),
        grows(before, after),
        0 <= start <= from,
    ensures
        sup_pair_handled(ord, c1, i, c2, j, after, start),
{
    assert forall|fi: bool, fj: bool| #[trigger]
        sup_side_handled(ord, c1, i, fi, c2, j, fj, after, start) by {
        assert(sup_side_handled(ord, c1, i, fi, c2, j, fj, before, from));
        assert forall|q: Seq<int>|
            #![trigger sup_handled(ord, c1, c2, Place { from: i, flip_from: fi, into: j, flip_into: fj, path: q }, after, start)]
            sup_place(
                c1,
                c2,
                Place { from: i, flip_from: fi, into: j, flip_into: fj, path: q },
            ) implies sup_handled(
            ord,
            c1,
            c2,
            Place { from: i, flip_from: fi, into: j, flip_into: fj, path: q },
            after,
            start,
        ) by {
            let at = Place { from: i, flip_from: fi, into: j, flip_into: fj, path: q };
            assert(sup_handled(ord, c1, c2, at, before, from));
            if !sup_blocked(ord, c1, c2, at) {
                let k = choose|k: int|
                    from <= k < before.len() && sup_inference(
                        ord,
                        c1,
                        c2,
                        at,
                        (#[trigger] before[k])@,
                    );
                assert(after[k] == before[k]);
            }
        }
    }
}

} // verus!
