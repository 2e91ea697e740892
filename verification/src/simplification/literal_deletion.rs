//! Literal deletion: resolved and repeated literals.
use crate::clause::{has_literal, Clause, ClauseV};
use crate::literal::{Literal, LiteralV};
use crate::semantics::{clause_holds, literal_holds, Interpretation, Valuation};
use vstd::prelude::*;

verus! {

/// Whether the literal is a disequation between a term and itself, which
/// holds nowhere.
pub open spec fn resolved(l: LiteralV) -> bool {
    !l.positive && l.lhs == l.rhs
}

/// The clause without its resolved literals, the others in their order.
pub open spec fn without_resolved(c: ClauseV) -> ClauseV
    decreases c.len(),
{
    if c.len() == 0 {
        c
    } else if resolved(c.last()) {
        without_resolved(c.drop_last())
    } else {
        without_resolved(c.drop_last()).push(c.last())
    }
}

/// The clause with only the first of the literals that denote the same
/// literal, in their order.
pub open spec fn without_duplicates(c: ClauseV) -> ClauseV
    decreases c.len(),
{
    if c.len() == 0 {
        c
    } else if has_literal(c.drop_last(), c.last()) {
        without_duplicates(c.drop_last())
    } else {
        without_duplicates(c.drop_last()).push(c.last())
    }
}

/// Simplifies a clause: deletes the resolved literals, then the repeated ones.
pub fn simplify(cl: &mut Clause)
    ensures
        final(cl)@ == without_duplicates(without_resolved(old(cl)@)),
        final(cl).id == old(cl).id,
{
    delete_resolved(cl);
    delete_duplicates(cl);
}

/// Deletes every literal that denotes the same literal as an earlier one:
/// equal polarity and the same two sides, in either order.
pub fn delete_duplicates(cl: &mut Clause)
    ensures
        final(cl)@ == without_duplicates(old(cl)@),
        final(cl).id == old(cl).id,
{
    let n = cl.literals.len();
    let mut kept: Vec<Literal> = Vec::new();
    let mut i: usize = 0;
    while i < n
        invariant
            0 <= i <= n,
            n == cl.literals.len(),
            cl@ == old(cl)@,
            cl.id == old(cl).id,
            crate::clause::literal_views(kept@) == without_duplicates(cl@.take(i as int)),
        decreases n - i,
    {
        let ghost prefix = cl@.take(i as int);
        let mut j: usize = 0;
        let mut found = false;
        while j < i && !found
            invariant
                0 <= j <= i,
                i < n,
                n == cl.literals.len(),
                found ==> has_literal(cl@.take(i as int), cl@[i as int]),
                !found ==> forall|k: int| 0 <= k < j ==> !(#[trigger] cl@[k]).same(cl@[i as int]),
            decreases i - j + if found { 0int } else { 1int },
        {
            if cl.literals[j].equals(&cl.literals[i]) {
                proof {
                    assert(cl@.take(i as int)[j as int].same(cl@[i as int]));
                }
                found = true;
            } else {
                j += 1;
            }
        }
        proof {
            assert(cl@.take(i as int + 1).drop_last() =~= prefix);
            assert(cl@.take(i as int + 1).last() == cl@[i as int]);
            if !found {
                assert forall|k: int| 0 <= k < prefix.len() implies !(#[trigger] prefix[k]).same(
                    cl@[i as int],
                ) by {
                    assert(prefix[k] == cl@[k]);
                }
            }
        }
        if !found {
            kept.push(cl.literals[i].clone());
            proof {
                assert(crate::clause::literal_views(kept@) =~= without_duplicates(prefix).push(
                    cl@[i as int],
                ));
            }
        }
        i += 1;
    }
    proof {
        assert(cl@.take(n as int) =~= cl@);
    }
    cl.literals = kept;
}

/// Deletes every disequation between a term and itself.
pub fn delete_resolved(cl: &mut Clause)
    ensures
        final(cl)@ == without_resolved(old(cl)@),
        final(cl).id == old(cl).id,
{
    let n = cl.literals.len();
    let mut kept: Vec<Literal> = Vec::new();
    let mut i: usize = 0;
    while i < n
        invariant
            0 <= i <= n,
            n == cl.literals.len(),
            cl@ == old(cl)@,
            cl.id == old(cl).id,
            crate::clause::literal_views(kept@) == without_resolved(cl@.take(i as int)),
        decreases n - i,
    {
        proof {
            assert(cl@.take(i as int + 1).drop_last() =~= cl@.take(i as int));
            assert(cl@.take(i as int + 1).last() == cl@[i as int]);
        }
        let l = &cl.literals[i];
        if !(l.is_negative() && l.get_lhs().equals(l.get_rhs())) {
            kept.push(l.clone());
            proof {
                assert(crate::clause::literal_views(kept@) =~= without_resolved(
                    cl@.take(i as int),
                ).push(cl@[i as int]));
            }
        }
        i += 1;
    }
    proof {
        assert(cl@.take(n as int) =~= cl@);
    }
    cl.literals = kept;
}

/// Deleting the resolved literals changes nothing in where the clause holds.
pub proof fn lemma_without_resolved_holds(c: ClauseV, m: Interpretation, v: Valuation)
    ensures
        clause_holds(without_resolved(c), m, v) == clause_holds(c, m, v),
    decreases c.len(),
{
    if c.len() > 0 {
        let r = c.drop_last();
        lemma_without_resolved_holds(r, m, v);
        lemma_holds_push(r, c.last(), m, v);
        assert(r.push(c.last()) =~= c);
        if !resolved(c.last()) {
            lemma_holds_push(without_resolved(r), c.last(), m, v);
        }
    }
}

/// Deleting the repeated literals changes nothing in where the clause holds.
pub proof fn lemma_without_duplicates_holds(c: ClauseV, m: Interpretation, v: Valuation)
    ensures
        clause_holds(without_duplicates(c), m, v) == clause_holds(c, m, v),
    decreases c.len(),
{
    if c.len() > 0 {
        let r = c.drop_last();
        lemma_without_duplicates_holds(r, m, v);
        lemma_holds_push(r, c.last(), m, v);
        assert(r.push(c.last()) =~= c);
        if has_literal(r, c.last()) {
            let k = choose|k: int| 0 <= k < r.len() && (#[trigger] r[k]).same(c.last());
            if literal_holds(c.last(), m, v) {
                assert(literal_holds(r[k], m, v));
            }
        } else {
            lemma_holds_push(without_duplicates(r), c.last(), m, v);
        }
    }
}

/// A clause with one more literal holds where the clause or the literal holds.
pub proof fn lemma_holds_push(c: ClauseV, l: LiteralV, m: Interpretation, v: Valuation)
    ensures
        clause_holds(c.push(l), m, v) == (clause_holds(c, m, v) || literal_holds(l, m, v)),
{
    let d = c.push(l);
    if clause_holds(d, m, v) {
        let i = choose|i: int| 0 <= i < d.len() && literal_holds(#[trigger] d[i], m, v);
        if i < c.len() {
            assert(d[i] == c[i]);
        }
    }
    if clause_holds(c, m, v) {
        let i = choose|i: int| 0 <= i < c.len() && literal_holds(#[trigger] c[i], m, v);
        assert(d[i] == c[i]);
    }
    if literal_holds(l, m, v) {
        assert(d[c.len() as int] == l);
    }
}

/// After the deletions no literal is resolved, and no two literals denote
/// the same literal.
pub proof fn lemma_simplified(c: ClauseV)
    ensures
        forall|i: int|
            0 <= i < without_resolved(c).len() ==> !resolved(#[trigger] without_resolved(c)[i]),
        forall|i: int, j: int|
            0 <= i < j < without_duplicates(c).len() ==> !(#[trigger] without_duplicates(c)[i]).same(
                #[trigger] without_duplicates(c)[j],
            ),
        forall|i: int|
            0 <= i < without_duplicates(c).len() ==> has_literal(
                c,
                #[trigger] without_duplicates(c)[i],
            ),
    decreases c.len(),
{
    if c.len() > 0 {
        let r = c.drop_last();
        lemma_simplified(r);
        let wd = without_duplicates(c);
        let wr = without_duplicates(r);
        assert forall|i: int| 0 <= i < without_resolved(c).len() implies !resolved(
            #[trigger] without_resolved(c)[i],
        ) by {
            if i < without_resolved(r).len() {
                assert(without_resolved(c)[i] == without_resolved(r)[i]);
            }
        }
        assert forall|i: int| 0 <= i < wd.len() implies has_literal(c, #[trigger] wd[i]) by {
            if i < wr.len() {
                assert(wd[i] == wr[i]);
                let k = choose|k: int| 0 <= k < r.len() && (#[trigger] r[k]).same(wr[i]);
                assert(c[k] == r[k]);
            } else {
                assert(wd[i] == c.last());
                assert(c[c.len() - 1].same(wd[i]));
            }
        }
        assert forall|i: int, j: int| 0 <= i < j < wd.len() implies !(#[trigger] wd[i]).same(
            #[trigger] wd[j],
        ) by {
            if j < wr.len() {
                assert(wd[i] == wr[i] && wd[j] == wr[j]);
            } else {
                assert(wd[j] == c.last());
                assert(wd[i] == wr[i]);
                let k = choose|k: int| 0 <= k < r.len() && (#[trigger] r[k]).same(wr[i]);
                if wd[i].same(wd[j]) {
                    assert(r[k].same(c.last()));
                }
            }
        }
    }
}

} // verus!
