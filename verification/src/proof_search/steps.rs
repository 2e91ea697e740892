//! The parts of one iteration of the given-clause algorithm.
use crate::clause::{same_clause, Clause, ClauseV};
use crate::clause_selection::passive::PassiveSet;
use crate::inference::equality_factoring::{
    ef_conclusion, ef_pair_handled, ef_places, equality_factoring, grows, lemma_ef_pair_transfer,
    Reading,
};
use crate::inference::equality_resolution::{
    equality_resolution, er_blocked, er_conclusion, er_generated, er_places, lemma_er_transfer,
};
use crate::inference::superposition::{
    lemma_sup_pair_transfer, sup_conclusion, sup_pair_handled, sup_places, superposition, Spot,
};
use crate::ordering::term_ordering::TermOrdering;
use crate::proof_search::entailment::{
    all_entailed, lemma_entails_ef, lemma_entails_er, lemma_entails_rewritten,
    lemma_entails_simplified, lemma_entails_sup, lemma_entails_unit, rules_entailed,
};
use crate::proof_statistics::{count_up, ProofStatistics};
use crate::semantics::entails;
use crate::simplification::literal_deletion::{simplify, without_duplicates, without_resolved};
use crate::simplification::feature_vector::{
    dominated, feature_vector, features_of, lemma_subsumption_features, SubsumptionIndex,
};
use crate::simplification::rewriting::{rewrite_literals, rewritten, took_steps, TermIndex};
use crate::simplification::simplify_reflect::{
    lemma_reflect_sound, simplify_reflect, without_reflected,
};
use crate::simplification::subsumption::{subsumes, subsumes_spec};
use crate::simplification::tautology_deletion::{is_tautology, trivial};
use crate::term::Term;
use vstd::prelude::*;

verus! {

/// The clause without its resolved and repeated literals and without the
/// literals that a clause of `active` contradicts.
pub open spec fn cleared(active: Seq<Clause>, x: ClauseV) -> ClauseV {
    without_reflected(active, without_duplicates(without_resolved(x)))
}

/// Whether `d` is `c` rewritten by the rules and then without its resolved
/// and repeated literals and the literals that a clause of `active`
/// contradicts.
pub open spec fn simplified(
    ord: TermOrdering,
    rules: Seq<(crate::term::TermV, crate::term::TermV)>,
    active: Seq<Clause>,
    c: ClauseV,
    d: ClauseV,
) -> bool {
    exists|x: ClauseV| rewritten(ord, rules, c, x) && d == cleared(active, x)
}

/// Whether `d` is `c` rewritten by the rules to normal form and then
/// without its resolved and repeated literals and the literals that a
/// clause of `active` contradicts.
pub open spec fn simplified_normal(
    ord: TermOrdering,
    rules: Seq<(crate::term::TermV, crate::term::TermV)>,
    active: Seq<Clause>,
    c: ClauseV,
    d: ClauseV,
) -> bool {
    exists|x: ClauseV|
        rewritten(ord, rules, c, x) && crate::simplification::rewriting::normal(ord, rules, x)
            && d == cleared(active, x)
}

/// Whether `d` is `c` rewritten by the rules, with all the `n` steps that
/// are allowed taken on some side, and then without its resolved and
/// repeated literals and the literals that a clause of `active`
/// contradicts.
pub open spec fn simplified_short(
    ord: TermOrdering,
    rules: Seq<(crate::term::TermV, crate::term::TermV)>,
    active: Seq<Clause>,
    c: ClauseV,
    d: ClauseV,
    n: nat,
) -> bool {
    exists|x: ClauseV|
        rewritten(ord, rules, c, x) && took_steps(ord, rules, c, x, n) && d == cleared(active, x)
}

/// Whether `d` is `c` simplified with at most `n` rewrite steps for each
/// side: rewritten to normal form, or as far as the steps go.
pub open spec fn simplified_within(
    ord: TermOrdering,
    rules: Seq<(crate::term::TermV, crate::term::TermV)>,
    active: Seq<Clause>,
    c: ClauseV,
    d: ClauseV,
    n: nat,
) -> bool {
    simplified_normal(ord, rules, active, c, d) || simplified_short(ord, rules, active, c, d, n)
}

/// Rewrites the clause by the rules, deletes its resolved and repeated
/// literals, and deletes the literals that an active unit clause
/// contradicts. Yields whether the rewriting reached the normal form; else
/// some side took all the steps.
pub fn simplify_clause(
    term_ordering: &TermOrdering,
    term_index: &TermIndex,
    active: &Vec<Clause>,
    cl: &mut Clause,
    max_steps: usize,
) -> (normal: bool)
    requires
        term_index.wf(),
    ensures
        simplified(*term_ordering, term_index@, active@, old(cl)@, final(cl)@),
        normal ==> simplified_normal(*term_ordering, term_index@, active@, old(cl)@, final(cl)@),
        !normal ==> simplified_short(
            *term_ordering,
            term_index@,
            active@,
            old(cl)@,
            final(cl)@,
            max_steps as nat,
        ),
        simplified_within(
            *term_ordering,
            term_index@,
            active@,
            old(cl)@,
            final(cl)@,
            max_steps as nat,
        ),
        final(cl).id == old(cl).id,
{
    let normal = rewrite_literals(term_ordering, term_index, cl, max_steps);
    let ghost x = cl@;
    simplify(cl);
    simplify_reflect(active, cl);
    proof {
        assert(rewritten(*term_ordering, term_index@, old(cl)@, x) && cl@ == cleared(active@, x));
        if normal {
            assert(rewritten(*term_ordering, term_index@, old(cl)@, x)
                && crate::simplification::rewriting::normal(*term_ordering, term_index@, x) && cl@
                == cleared(active@, x));
        } else {
            assert(rewritten(*term_ordering, term_index@, old(cl)@, x) && took_steps(
                *term_ordering,
                term_index@,
                old(cl)@,
                x,
                max_steps as nat,
            ) && cl@ == cleared(active@, x));
        }
    }
    normal
}

/// A simplified clause follows from what the clause, the rules and the
/// active clauses follow from.
pub proof fn lemma_entails_simplified_clause(
    input: Seq<ClauseV>,
    ord: TermOrdering,
    rules: Seq<(crate::term::TermV, crate::term::TermV)>,
    active: Seq<Clause>,
    c: ClauseV,
    d: ClauseV,
)
    requires
        rules_entailed(input, rules),
        all_entailed(input, active),
        entails(input, c),
        simplified(ord, rules, active, c, d),
    ensures
        entails(input, d),
{
    let x = choose|x: ClauseV| rewritten(ord, rules, c, x) && d == cleared(active, x);
    lemma_entails_rewritten(input, ord, rules, c, x);
    lemma_entails_simplified(input, x);
    lemma_reflect_sound(input, active, without_duplicates(without_resolved(x)));
}

/// Whether some clause of `active` subsumes `c`.
pub open spec fn subsumed_by_some(active: Seq<Clause>, c: ClauseV) -> bool {
    exists|i: int| 0 <= i < active.len() && subsumes_spec((#[trigger] active[i])@, c)
}

/// Checks whether some active clause subsumes the clause.
pub fn forward_subsumed(active: &Vec<Clause>, cl: &Clause) -> (r: bool)
    ensures
        r == subsumed_by_some(active@, cl@),
{
    let n = active.len();
    let mut i: usize = 0;
    while i < n
        invariant
            0 <= i <= n,
            n == active@.len(),
            forall|k: int| 0 <= k < i ==> !subsumes_spec((#[trigger] active@[k])@, cl@),
        decreases n - i,
    {
        if subsumes(&active[i], cl) {
            return true;
        }
        i += 1;
    }
    false
}

/// Checks whether some active clause subsumes the clause. Only the active
/// clauses whose features the index does not rule out are matched.
pub fn forward_subsumed_indexed(
    active: &Vec<Clause>,
    index: &SubsumptionIndex,
    cl: &Clause,
) -> (r: bool)
    requires
        index.describes(active@),
    ensures
        r == subsumed_by_some(active@, cl@),
{
    let q = feature_vector(cl);
    let n = active.len();
    let mut i: usize = 0;
    while i < n
        invariant
            0 <= i <= n,
            n == active@.len(),
            index.describes(active@),
            features_of(q, cl@),
            forall|k: int| 0 <= k < i ==> !subsumes_spec((#[trigger] active@[k])@, cl@),
        decreases n - i,
    {
        if index.may_subsume(i, &q) {
            if subsumes(&active[i], cl) {
                return true;
            }
        } else {
            proof {
                if subsumes_spec(active@[i as int]@, cl@) {
                    lemma_subsumption_features(
                        active@[i as int]@,
                        cl@,
                        index.vectors@[i as int],
                        q,
                    );
                }
            }
        }
        i += 1;
    }
    false
}

/// The rule that a clause gives: for a unit equation with one side greater
/// than the other, the greater side and the other one.
pub fn orient_rule(term_ordering: &TermOrdering, cl: &Clause) -> (r: Option<(Term, Term)>)
    ensures
        match r {
            Some((l, r)) => {
                &&& cl@.len() == 1
                &&& cl@[0].positive
                &&& (cl@[0].lhs == l@ && cl@[0].rhs == r@) || (cl@[0].lhs == r@ && cl@[0].rhs
                    == l@)
                &&& term_ordering.greater(l@, r@)
            },
            None => !(cl@.len() == 1 && cl@[0].positive && (term_ordering.greater(
                cl@[0].lhs,
                cl@[0].rhs,
            ) || term_ordering.greater(cl@[0].rhs, cl@[0].lhs))),
        },
{
    if cl.size() != 1 || !cl.at(0).is_positive() {
        return None;
    }
    let l = cl.at(0).get_lhs();
    let r = cl.at(0).get_rhs();
    if term_ordering.gt(l, r) {
        Some((l.clone(), r.clone()))
    } else if term_ordering.gt(r, l) {
        Some((r.clone(), l.clone()))
    } else {
        None
    }
}

/// Whether the clause `c` is, with its ID, one of the clauses of `active`.
pub open spec fn was_active(active: Seq<Clause>, c: Clause) -> bool {
    exists|j: int| 0 <= j < active.len() && (#[trigger] active[j])@ == c@ && active[j].id == c.id
}

/// Whether `rules` holds the rule that the clause `g` gives: the greater
/// and the smaller side of a unit equation, or nothing where `g` is no unit
/// equation with one side greater than the other.
pub open spec fn rule_of(
    ord: TermOrdering,
    g: ClauseV,
    rules: Seq<(crate::term::TermV, crate::term::TermV)>,
) -> bool {
    if rules.len() == 0 {
        !(g.len() == 1 && g[0].positive && (ord.greater(g[0].lhs, g[0].rhs) || ord.greater(
            g[0].rhs,
            g[0].lhs,
        )))
    } else {
        &&& rules.len() == 1
        &&& g.len() == 1
        &&& g[0].positive
        &&& (g[0].lhs == rules[0].0 && g[0].rhs == rules[0].1) || (g[0].lhs == rules[0].1
            && g[0].rhs == rules[0].0)
        &&& ord.greater(rules[0].0, rules[0].1)
    }
}

/// Whether `x` is the clause `a` rewritten by the rules with at most `n`
/// steps for each side: to normal form, or as far as the steps go.
pub open spec fn rewritten_within(
    ord: TermOrdering,
    rules: Seq<(crate::term::TermV, crate::term::TermV)>,
    a: ClauseV,
    x: ClauseV,
    n: nat,
) -> bool {
    rewritten(ord, rules, a, x) && (crate::simplification::rewriting::normal(ord, rules, x)
        || took_steps(ord, rules, a, x, n))
}

/// Whether the first `upto` of the clauses `before` were used on as the
/// given clause `g` asks, with `rw` holding what each was rewritten to: a
/// clause that `g` subsumes is counted in `subsumed`; of the others, one
/// that the rules leave as it is stands, with its ID, among the clauses
/// `kept`, and one that they change stands, rewritten, among `children`;
/// all in the order of the clauses.
pub open spec fn back_simplified(
    ord: TermOrdering,
    rules: Seq<(crate::term::TermV, crate::term::TermV)>,
    g: ClauseV,
    before: Seq<Clause>,
    rw: Seq<ClauseV>,
    upto: int,
    kept: Seq<Clause>,
    children: Seq<Clause>,
    subsumed: int,
    steps: nat,
) -> bool
    decreases upto,
{
    if upto <= 0 {
        kept.len() == 0 && children.len() == 0 && subsumed == 0
    } else if subsumes_spec(g, before[upto - 1]@) {
        subsumed >= 1 && back_simplified(
            ord,
            rules,
            g,
            before,
            rw,
            upto - 1,
            kept,
            children,
            subsumed - 1,
            steps,
        )
    } else if same_clause(rw[upto - 1], before[upto - 1]@) {
        &&& rewritten_within(ord, rules, before[upto - 1]@, rw[upto - 1], steps)
        &&& kept.len() >= 1
        &&& kept.last()@ == before[upto - 1]@
        &&& kept.last().id == before[upto - 1].id
        &&& back_simplified(
            ord,
            rules,
            g,
            before,
            rw,
            upto - 1,
            kept.drop_last(),
            children,
            subsumed,
            steps,
        )
    } else {
        &&& rewritten_within(ord, rules, before[upto - 1]@, rw[upto - 1], steps)
        &&& children.len() >= 1
        &&& children.last()@ == rw[upto - 1]
        &&& back_simplified(
            ord,
            rules,
            g,
            before,
            rw,
            upto - 1,
            kept,
            children.drop_last(),
            subsumed,
            steps,
        )
    }
}

/// What the clauses were rewritten to from place `upto` on does not
/// matter for the first `upto` clauses.
pub proof fn lemma_back_simplified_rw(
    ord: TermOrdering,
    rules: Seq<(crate::term::TermV, crate::term::TermV)>,
    g: ClauseV,
    before: Seq<Clause>,
    rw: Seq<ClauseV>,
    longer: Seq<ClauseV>,
    upto: int,
    kept: Seq<Clause>,
    children: Seq<Clause>,
    subsumed: int,
    steps: nat,
)
    requires
        back_simplified(ord, rules, g, before, rw, upto, kept, children, subsumed, steps),
        forall|k: int| 0 <= k < upto ==> longer[k] == rw[k],
    ensures
        back_simplified(ord, rules, g, before, longer, upto, kept, children, subsumed, steps),
    decreases upto,
{
    if upto > 0 {
        if subsumes_spec(g, before[upto - 1]@) {
            lemma_back_simplified_rw(
                ord,
                rules,
                g,
                before,
                rw,
                longer,
                upto - 1,
                kept,
                children,
                subsumed - 1,
                steps,
            );
        } else if same_clause(rw[upto - 1], before[upto - 1]@) {
            lemma_back_simplified_rw(
                ord,
                rules,
                g,
                before,
                rw,
                longer,
                upto - 1,
                kept.drop_last(),
                children,
                subsumed,
                steps,
            );
        } else {
            lemma_back_simplified_rw(
                ord,
                rules,
                g,
                before,
                rw,
                longer,
                upto - 1,
                kept,
                children.drop_last(),
                subsumed,
                steps,
            );
        }
    }
}

/// Uses the given clause `g` on the active clauses: those that `g` subsumes
/// are removed and counted; those that the rule of `g` rewrites are removed
/// and added, rewritten, to `children`; the others stay, in their order.
pub(crate) fn back_simplify(
    term_ordering: &TermOrdering,
    active: &mut Vec<Clause>,
    features: &mut SubsumptionIndex,
    g: &Clause,
    children: &mut Vec<Clause>,
    max_steps: usize,
    input: Ghost<Seq<ClauseV>>,
) -> (subsumed: usize)
    requires
        all_entailed(input@, old(active)@),
        all_entailed(input@, old(children)@),
        entails(input@, g@),
        old(features).describes(old(active)@),
    ensures
        final(features).describes(final(active)@),
        all_entailed(input@, final(active)@),
        all_entailed(input@, final(children)@),
        grows(old(children)@, final(children)@),
        final(active)@.len() + subsumed + (final(children)@.len() - old(children)@.len()) == old(active)@.len(),
        forall|i: int|
            0 <= i < final(active)@.len() ==> !subsumes_spec(g@, (#[trigger] final(active)@[i])@),
        forall|i: int|
            0 <= i < final(active)@.len() ==> was_active(old(active)@, #[trigger] final(active)@[i]),
        exists|rules: Seq<(crate::term::TermV, crate::term::TermV)>, rw: Seq<ClauseV>|
            rule_of(*term_ordering, g@, rules) && #[trigger] back_simplified(
                *term_ordering,
                rules,
                g@,
                old(active)@,
                rw,
                old(active)@.len() as int,
                final(active)@,
                final(children)@.skip(old(children)@.len() as int),
                subsumed as int,
                max_steps as nat,
            ),
{
    let mut index = TermIndex::new();
    match orient_rule(term_ordering, g) {
        Some((l, r)) => {
            proof {
                lemma_entails_unit(input@, g@, l@, r@);
            }
            index.insert(l, r);
        },
        None => {},
    }
    let ghost rules = index@;
    let ghost first = children@.len() as int;
    let ghost mut rw: Seq<ClauseV> = Seq::empty();
    proof {
        assert(rule_of(*term_ordering, g@, rules));
        assert(children@.skip(first) =~= Seq::<Clause>::empty());
    }
    let q = feature_vector(g);
    let mut kept: Vec<Clause> = Vec::new();
    let mut vectors = SubsumptionIndex::new();
    let mut subsumed: usize = 0;
    let n = active.len();
    let mut i: usize = 0;
    while i < n
        invariant
            0 <= i <= n,
            n == active@.len(),
            active@ == old(active)@,
            *features == *old(features),
            features.describes(active@),
            vectors.describes(kept@),
            features_of(q, g@),
            all_entailed(input@, active@),
            all_entailed(input@, kept@),
            all_entailed(input@, children@),
            rules_entailed(input@, index@),
            index.wf(),
            grows(old(children)@, children@),
            kept@.len() + subsumed + (children@.len() - old(children)@.len()) == i,
            forall|k: int| 0 <= k < kept@.len() ==> !subsumes_spec(g@, (#[trigger] kept@[k])@),
            forall|k: int| 0 <= k < kept@.len() ==> was_active(active@, #[trigger] kept@[k]),
            rules == index@,
            first == old(children)@.len(),
            rw.len() == i,
            back_simplified(
                *term_ordering,
                rules,
                g@,
                active@,
                rw,
                i as int,
                kept@,
                children@.skip(first),
                subsumed as int,
                max_steps as nat,
            ),
        decreases n - i,
    {
        let ghost rw0 = rw;
        let ghost kept0 = kept@;
        let ghost added0 = children@.skip(first);
        let ghost ord = *term_ordering;
        let a = &active[i];
        proof {
            if !dominated(q, features.vectors@[i as int]) && subsumes_spec(g@, a@) {
                lemma_subsumption_features(g@, a@, q, features.vectors@[i as int]);
            }
        }
        if features.may_be_subsumed(i, &q) && subsumes(g, a) {
            subsumed += 1;
            proof {
                rw = rw0.push(a@);
                lemma_back_simplified_rw(
                    ord,
                    rules,
                    g@,
                    active@,
                    rw0,
                    rw,
                    i as int,
                    kept0,
                    added0,
                    subsumed - 1,
                    max_steps as nat,
                );
            }
        } else {
            let mut a2 = a.clone();
            rewrite_literals(term_ordering, &index, &mut a2, max_steps);
            proof {
                rw = rw0.push(a2@);
                lemma_back_simplified_rw(
                    ord,
                    rules,
                    g@,
                    active@,
                    rw0,
                    rw,
                    i as int,
                    kept0,
                    added0,
                    subsumed as int,
                    max_steps as nat,
                );
                assert(rewritten_within(ord, rules, a@, a2@, max_steps as nat));
            }
            if a2.equals(a) {
                let ghost before = kept@;
                let ghost vectors_before = vectors.vectors@;
                kept.push(a.clone());
                vectors.insert(a);
                proof {
                    assert forall|k: int| 0 <= k < kept@.len() implies features_of(
                        #[trigger] vectors.vectors@[k],
                        kept@[k]@,
                    ) by {
                        if k < before.len() {
                            assert(kept@[k] == before[k]);
                            assert(vectors.vectors@[k] == vectors_before[k]);
                        }
                    }
                    assert forall|k: int| 0 <= k < kept@.len() implies was_active(
                        active@,
                        #[trigger] kept@[k],
                    ) by {
                        if k < before.len() {
                            assert(kept@[k] == before[k]);
                        } else {
                            assert(active@[i as int]@ == kept@[k]@);
                        }
                    }
                    assert(kept@.drop_last() =~= kept0);
                }
            } else {
                proof {
                    lemma_entails_rewritten(input@, *term_ordering, index@, a@, a2@);
                }
                children.push(a2);
                proof {
                    assert(children@.skip(first).drop_last() =~= added0);
                    assert(children@.skip(first).last() == children@.last());
                }
            }
        }
        proof {
            assert(back_simplified(
                ord,
                rules,
                g@,
                active@,
                rw,
                i + 1,
                kept@,
                children@.skip(first),
                subsumed as int,
                max_steps as nat,
            ));
        }
        i += 1;
    }
    *active = kept;
    *features = vectors;
    subsumed
}

/// Whether `child` is inferred from the given clause `g`: by superposition
/// between `g` and an active clause, in either direction, or between `g` and
/// its copy `g2`, or by equality factoring or equality resolution on `g`.
pub open spec fn derived(
    ord: TermOrdering,
    g: ClauseV,
    g2: ClauseV,
    active: Seq<Clause>,
    child: ClauseV,
) -> bool {
    ||| exists|i: int|
        0 <= i < active.len() && (sup_conclusion(ord, g, (#[trigger] active[i])@, child)
            || sup_conclusion(ord, active[i]@, g, child))
    ||| sup_conclusion(ord, g, g2, child)
    ||| ef_conclusion(ord, g, child)
    ||| er_conclusion(ord, g, child)
}

/// What is inferred from the given clause follows from what the given
/// clause and the active clauses follow from.
pub proof fn lemma_entails_derived(
    input: Seq<ClauseV>,
    ord: TermOrdering,
    g: ClauseV,
    g2: ClauseV,
    active: Seq<Clause>,
    child: ClauseV,
)
    requires
        all_entailed(input, active),
        entails(input, g),
        entails(input, g2),
        derived(ord, g, g2, active, child),
    ensures
        entails(input, child),
{
    if exists|i: int|
        0 <= i < active.len() && (sup_conclusion(ord, g, (#[trigger] active[i])@, child)
            || sup_conclusion(ord, active[i]@, g, child)) {
        let i = choose|i: int|
            0 <= i < active.len() && (sup_conclusion(ord, g, (#[trigger] active[i])@, child)
                || sup_conclusion(ord, active[i]@, g, child));
        if sup_conclusion(ord, g, active[i]@, child) {
            lemma_entails_sup(input, ord, g, active[i]@, child);
        } else {
            lemma_entails_sup(input, ord, active[i]@, g, child);
        }
    } else if sup_conclusion(ord, g, g2, child) {
        lemma_entails_sup(input, ord, g, g2, child);
    } else if ef_conclusion(ord, g, child) {
        lemma_entails_ef(input, ord, g, child);
    } else {
        lemma_entails_er(input, ord, g, child);
    }
}

/// Whether every clause of `children` from place `start` on is inferred
/// from the given clause.
pub open spec fn all_derived(
    ord: TermOrdering,
    g: ClauseV,
    g2: ClauseV,
    active: Seq<Clause>,
    children: Seq<Clause>,
    start: int,
) -> bool {
    forall|k: int|
        start <= k < children.len() ==> derived(ord, g, g2, active, (#[trigger] children[k])@)
}

/// Whether every inference from the given clause that is not blocked has
/// its conclusion among the clauses of `children` from place `start` on:
/// superposition from `g` into each active clause and into `g2`, from
/// each active clause into `g`, equality factoring and equality resolution
/// on `g`.
pub open spec fn all_inferred(
    ord: TermOrdering,
    g: ClauseV,
    g2: ClauseV,
    active: Seq<Clause>,
    children: Seq<Clause>,
    start: int,
) -> bool {
    &&& forall|i: int, a: int, b: int|
        0 <= i < active.len() && 0 <= a < g.len() && g[a].positive && 0 <= b < active[i]@.len()
            ==> #[trigger] sup_pair_handled(ord, g, a, active[i]@, b, children, start)
    &&& forall|i: int, a: int, b: int|
        0 <= i < active.len() && 0 <= a < active[i]@.len() && active[i]@[a].positive && 0 <= b
            < g.len() ==> #[trigger] sup_pair_handled(ord, active[i]@, a, g, b, children, start)
    &&& forall|a: int, b: int|
        0 <= a < g.len() && g[a].positive && 0 <= b < g2.len() ==> #[trigger] sup_pair_handled(
            ord,
            g,
            a,
            g2,
            b,
            children,
            start,
        )
    &&& forall|a: int, b: int|
        0 <= a < g.len() && 0 <= b < g.len() ==> #[trigger] ef_pair_handled(
            ord,
            g,
            a,
            b,
            children,
            start,
        )
    &&& forall|a: int|
        0 <= a < g.len() ==> er_blocked(ord, g, a) || #[trigger] er_generated(
            ord,
            g,
            a,
            children,
            start,
        )
}

/// Whether the children from place `a` up to place `b` are the conclusions
/// of superposition from `c1` into `c2`: one for each spot that is not
/// blocked, in the order of the spots.
pub open spec fn sup_segment(
    ord: TermOrdering,
    c1: ClauseV,
    c2: ClauseV,
    children: Seq<Clause>,
    a: int,
    b: int,
) -> bool {
    &&& 0 <= a <= b <= children.len()
    &&& exists|idx: Seq<Spot>| #[trigger]
        sup_places(ord, c1, c2, children.take(b), a, idx, ((c1.len() as int, false, 0, false), 0))
}

/// Whether the children from place `a` up to place `b` are the conclusions
/// of equality factoring on `c`: one for each reading that is not blocked,
/// in the order of the readings.
pub open spec fn ef_segment(ord: TermOrdering, c: ClauseV, children: Seq<Clause>, a: int, b: int) -> bool {
    &&& 0 <= a <= b <= children.len()
    &&& exists|idx: Seq<Reading>| #[trigger]
        ef_places(ord, c, children.take(b), a, idx, (c.len() as int, false, 0, false))
}

/// Whether the children from place `a` up to place `b` are the conclusions
/// of equality resolution on `c`: one for each literal that is not
/// blocked, in the order of the literals.
pub open spec fn er_segment(ord: TermOrdering, c: ClauseV, children: Seq<Clause>, a: int, b: int) -> bool {
    &&& 0 <= a <= b <= children.len()
    &&& exists|idx: Seq<int>| #[trigger] er_places(ord, c, children.take(b), a, idx, c.len() as int)
}

/// Whether the children from place `start` on are exactly what is inferred
/// from the given clause `g`, in this order: for each active clause in
/// turn the conclusions of superposition from `g` into it and then from it
/// into `g`; then those from `g` into its copy `g2`; then those of
/// equality factoring and of equality resolution on `g`. `cuts` holds the
/// place where the conclusions with each active clause begin, and `mids`
/// the place where those of the other direction begin; `own` is where the
/// conclusions with the copy end and `factors` where those of equality
/// factoring end.
pub open spec fn generated_exactly(
    ord: TermOrdering,
    g: ClauseV,
    g2: ClauseV,
    active: Seq<Clause>,
    children: Seq<Clause>,
    start: int,
    cuts: Seq<int>,
    mids: Seq<int>,
    own: int,
    factors: int,
) -> bool {
    &&& cuts.len() == active.len() + 1
    &&& mids.len() == active.len()
    &&& cuts[0] == start
    &&& forall|i: int|
        0 <= i < active.len() ==> sup_segment(ord, g, (#[trigger] active[i])@, children, cuts[i], mids[i])
            && sup_segment(ord, active[i]@, g, children, mids[i], cuts[i + 1])
    &&& sup_segment(ord, g, g2, children, cuts[active.len() as int], own)
    &&& ef_segment(ord, g, children, own, factors)
    &&& er_segment(ord, g, children, factors, children.len() as int)
}

/// Whether the children from place `start` on are exactly what is inferred
/// from the given clause `g`, as `generated_exactly` says.
pub open spec fn generated_from(
    ord: TermOrdering,
    g: ClauseV,
    g2: ClauseV,
    active: Seq<Clause>,
    children: Seq<Clause>,
    start: int,
) -> bool {
    exists|cuts: Seq<int>, mids: Seq<int>, own: int, factors: int| #[trigger]
        generated_exactly(ord, g, g2, active, children, start, cuts, mids, own, factors)
}

/// A segment of the children stays what it is when more children are added.
pub proof fn lemma_segments_grow(
    ord: TermOrdering,
    c1: ClauseV,
    c2: ClauseV,
    before: Seq<Clause>,
    after: Seq<Clause>,
    a: int,
    b: int,
)
    requires
        grows(before, after),
        0 <= a <= b <= before.len(),
    ensures
        sup_segment(ord, c1, c2, before, a, b) ==> sup_segment(ord, c1, c2, after, a, b),
        ef_segment(ord, c1, before, a, b) ==> ef_segment(ord, c1, after, a, b),
        er_segment(ord, c1, before, a, b) ==> er_segment(ord, c1, after, a, b),
{
    assert(after.take(b) =~= before.take(b));
}

/// Adds to `children` what is inferred from the given clause `g`: by
/// superposition with each active clause in both directions and with the
/// copy `g2` of `g`, by equality factoring and by equality resolution, in
/// this order. The counters of inferred clauses go up by the numbers of
/// clauses added.
pub fn generate(
    term_ordering: &TermOrdering,
    g: &Clause,
    g2: &Clause,
    active: &Vec<Clause>,
    children: &mut Vec<Clause>,
    statistics: &mut ProofStatistics,
)
    ensures
        grows(old(children)@, final(children)@),
        all_derived(
            *term_ordering,
            g@,
            g2@,
            active@,
            final(children)@,
            old(children)@.len() as int,
        ),
        all_inferred(
            *term_ordering,
            g@,
            g2@,
            active@,
            final(children)@,
            old(children)@.len() as int,
        ),
        final(statistics).inferred == count_up_spec(
            old(statistics).inferred,
            final(children)@.len() - old(children)@.len(),
        ),
        final(statistics).initial_clauses == old(statistics).initial_clauses,
        final(statistics).iterations == old(statistics).iterations,
        final(statistics).trivial == old(statistics).trivial,
        final(statistics).forward_subsumed == old(statistics).forward_subsumed,
        final(statistics).same_analyzed(*old(statistics)),
        final(statistics).backward_subsumed == old(statistics).backward_subsumed,
        final(statistics).nontrivial_inferred == old(statistics).nontrivial_inferred,
        exists|cuts: Seq<int>, mids: Seq<int>, own: int, factors: int| #[trigger]
            generated_exactly(
                *term_ordering,
                g@,
                g2@,
                active@,
                final(children)@,
                old(children)@.len() as int,
                cuts,
                mids,
                own,
                factors,
            ),
{
    let ghost ord = *term_ordering;
    let ghost start = children@.len() as int;
    let ghost mut cuts: Seq<int> = seq![start];
    let ghost mut mids: Seq<int> = Seq::empty();
    let first = children.len();
    let mut sup_count: usize = 0;
    let n = active.len();
    let mut i: usize = 0;
    while i < n
        invariant
            0 <= i <= n,
            n == active@.len(),
            ord == *term_ordering,
            start == old(children)@.len(),
            first == start,
            grows(old(children)@, children@),
            cuts.len() == i + 1,
            mids.len() == i,
            cuts[0] == start,
            cuts[i as int] == children@.len(),
            forall|i2: int|
                0 <= i2 < i ==> sup_segment(
                    ord,
                    g@,
                    (#[trigger] active@[i2])@,
                    children@,
                    cuts[i2],
                    mids[i2],
                ) && sup_segment(ord, active@[i2]@, g@, children@, mids[i2], cuts[i2 + 1]),
            all_derived(ord, g@, g2@, active@, children@, start),
            forall|i2: int, a: int, b: int|
                0 <= i2 < i && 0 <= a < g@.len() && g@[a].positive && 0 <= b < active@[i2]@.len()
                    ==> #[trigger] sup_pair_handled(ord, g@, a, active@[i2]@, b, children@, start),
            forall|i2: int, a: int, b: int|
                0 <= i2 < i && 0 <= a < active@[i2]@.len() && active@[i2]@[a].positive && 0 <= b
                    < g@.len() ==> #[trigger] sup_pair_handled(
                    ord,
                    active@[i2]@,
                    a,
                    g@,
                    b,
                    children@,
                    start,
                ),
        decreases n - i,
    {
        let ghost before = children@;
        let ghost cuts0 = cuts;
        let ghost mids0 = mids;
        superposition(term_ordering, g, &active[i], children);
        let ghost middle = children@;
        proof {
            assert(middle.take(middle.len() as int) =~= middle);
            assert(sup_segment(
                ord,
                g@,
                active@[i as int]@,
                middle,
                before.len() as int,
                middle.len() as int,
            ));
        }
        superposition(term_ordering, &active[i], g, children);
        proof {
            let after = children@;
            assert(after.take(after.len() as int) =~= after);
            assert(sup_segment(
                ord,
                active@[i as int]@,
                g@,
                after,
                middle.len() as int,
                after.len() as int,
            ));
            lemma_segments_grow(
                ord,
                g@,
                active@[i as int]@,
                middle,
                after,
                before.len() as int,
                middle.len() as int,
            );
            cuts = cuts0.push(after.len() as int);
            mids = mids0.push(middle.len() as int);
            assert forall|i2: int| 0 <= i2 < i + 1 implies sup_segment(
                ord,
                g@,
                (#[trigger] active@[i2])@,
                after,
                cuts[i2],
                mids[i2],
            ) && sup_segment(ord, active@[i2]@, g@, after, mids[i2], cuts[i2 + 1]) by {
                if i2 < i {
                    assert(cuts[i2] == cuts0[i2] && cuts[i2 + 1] == cuts0[i2 + 1] && mids[i2]
                        == mids0[i2]);
                    assert(sup_segment(ord, g@, active@[i2]@, before, cuts0[i2], mids0[i2]));
                    assert(sup_segment(ord, active@[i2]@, g@, before, mids0[i2], cuts0[i2 + 1]));
                    lemma_segments_grow(ord, g@, active@[i2]@, before, after, cuts0[i2], mids0[i2]);
                    lemma_segments_grow(
                        ord,
                        active@[i2]@,
                        g@,
                        before,
                        after,
                        mids0[i2],
                        cuts0[i2 + 1],
                    );
                }
            }
        }
        proof {
            let after = children@;
            let ci = active@[i as int]@;
            assert(grows(before, middle) && grows(middle, after) && grows(before, after));
            assert forall|i2: int, a: int, b: int|
                0 <= i2 < i + 1 && 0 <= a < g@.len() && g@[a].positive && 0 <= b
                    < active@[i2]@.len() implies #[trigger] sup_pair_handled(
                ord,
                g@,
                a,
                active@[i2]@,
                b,
                after,
                start,
            ) by {
                if i2 < i {
                    lemma_sup_pair_transfer(ord, g@, a, active@[i2]@, b, before, after, start, start);
                } else {
                    assert(sup_pair_handled(ord, g@, a, ci, b, middle, before.len() as int));
                    lemma_sup_pair_transfer(
                        ord,
                        g@,
                        a,
                        ci,
                        b,
                        middle,
                        after,
                        before.len() as int,
                        start,
                    );
                }
            }
            assert forall|i2: int, a: int, b: int|
                0 <= i2 < i + 1 && 0 <= a < active@[i2]@.len() && active@[i2]@[a].positive && 0
                    <= b < g@.len() implies #[trigger] sup_pair_handled(
                ord,
                active@[i2]@,
                a,
                g@,
                b,
                after,
                start,
            ) by {
                if i2 < i {
                    lemma_sup_pair_transfer(ord, active@[i2]@, a, g@, b, before, after, start, start);
                } else {
                    assert(sup_pair_handled(ord, ci, a, g@, b, after, middle.len() as int));
                    lemma_sup_pair_transfer(
                        ord,
                        ci,
                        a,
                        g@,
                        b,
                        after,
                        after,
                        middle.len() as int,
                        start,
                    );
                }
            }
        }
        proof {
            assert forall|k: int| start <= k < children@.len() implies derived(
                ord,
                g@,
                g2@,
                active@,
                (#[trigger] children@[k])@,
            ) by {
                if k < before.len() {
                    assert(children@[k] == middle[k]);
                    assert(middle[k] == before[k]);
                } else if k < middle.len() {
                    assert(children@[k] == middle[k]);
                    assert(sup_conclusion(ord, g@, active@[i as int]@, middle[k]@));
                } else {
                    assert(sup_conclusion(ord, active@[i as int]@, g@, children@[k]@));
                }
            }
        }
        i += 1;
    }
    let ghost after_active = children@;
    let ghost before = children@;
    superposition(term_ordering, g, g2, children);
    let ghost after_self = children@;
    proof {
        assert(after_self.take(after_self.len() as int) =~= after_self);
        assert(sup_segment(
            ord,
            g@,
            g2@,
            after_self,
            after_active.len() as int,
            after_self.len() as int,
        ));
    }
    proof {
        assert forall|k: int| start <= k < children@.len() implies derived(
            ord,
            g@,
            g2@,
            active@,
            (#[trigger] children@[k])@,
        ) by {
            if k < before.len() {
                assert(children@[k] == before[k]);
            } else {
                assert(sup_conclusion(ord, g@, g2@, children@[k]@));
            }
        }
    }
    let sup_total = children.len() - first;
    let ghost before = children@;
    let ef_count = equality_factoring(term_ordering, g, children);
    let ghost after_factoring = children@;
    proof {
        assert(after_factoring.take(after_factoring.len() as int) =~= after_factoring);
        assert(ef_segment(
            ord,
            g@,
            after_factoring,
            after_self.len() as int,
            after_factoring.len() as int,
        ));
    }
    proof {
        assert forall|k: int| start <= k < children@.len() implies derived(
            ord,
            g@,
            g2@,
            active@,
            (#[trigger] children@[k])@,
        ) by {
            if k < before.len() {
                assert(children@[k] == before[k]);
            } else {
                assert(ef_conclusion(ord, g@, children@[k]@));
            }
        }
    }
    let ghost before = children@;
    let er_count = equality_resolution(term_ordering, g, children);
    proof {
        let all = children@;
        assert(all.take(all.len() as int) =~= all);
        assert(er_segment(ord, g@, all, after_factoring.len() as int, all.len() as int));
        assert(grows(after_active, after_self) && grows(after_self, after_factoring) && grows(
            after_factoring,
            all,
        ));
        assert(grows(after_active, all) && grows(after_self, all));
        lemma_segments_grow(
            ord,
            g@,
            g2@,
            after_self,
            all,
            after_active.len() as int,
            after_self.len() as int,
        );
        lemma_segments_grow(
            ord,
            g@,
            g@,
            after_factoring,
            all,
            after_self.len() as int,
            after_factoring.len() as int,
        );
        assert forall|i2: int| 0 <= i2 < active@.len() implies sup_segment(
            ord,
            g@,
            (#[trigger] active@[i2])@,
            all,
            cuts[i2],
            mids[i2],
        ) && sup_segment(ord, active@[i2]@, g@, all, mids[i2], cuts[i2 + 1]) by {
            assert(sup_segment(ord, g@, active@[i2]@, after_active, cuts[i2], mids[i2]));
            assert(sup_segment(ord, active@[i2]@, g@, after_active, mids[i2], cuts[i2 + 1]));
            lemma_segments_grow(ord, g@, active@[i2]@, after_active, all, cuts[i2], mids[i2]);
            lemma_segments_grow(ord, active@[i2]@, g@, after_active, all, mids[i2], cuts[i2 + 1]);
        }
        assert(generated_exactly(
            ord,
            g@,
            g2@,
            active@,
            all,
            start,
            cuts,
            mids,
            after_self.len() as int,
            after_factoring.len() as int,
        ));
    }
    proof {
        assert forall|k: int| start <= k < children@.len() implies derived(
            ord,
            g@,
            g2@,
            active@,
            (#[trigger] children@[k])@,
        ) by {
            if k < before.len() {
                assert(children@[k] == before[k]);
            } else {
                assert(er_conclusion(ord, g@, children@[k]@));
            }
        }
        assert forall|k: int| 0 <= k < old(children)@.len() implies children@[k] == old(children)@[k] by {
            assert(before[k] == old(children)@[k]);
        }
        let all = children@;
        assert(grows(after_active, after_self) && grows(after_self, after_factoring));
        assert(grows(after_active, all) && grows(after_self, all) && grows(after_factoring, all));
        assert forall|i: int, a: int, b: int|
            0 <= i < active@.len() && 0 <= a < g@.len() && g@[a].positive && 0 <= b
                < active@[i]@.len() implies #[trigger] sup_pair_handled(
            ord,
            g@,
            a,
            active@[i]@,
            b,
            all,
            start,
        ) by {
            lemma_sup_pair_transfer(ord, g@, a, active@[i]@, b, after_active, all, start, start);
        }
        assert forall|i: int, a: int, b: int|
            0 <= i < active@.len() && 0 <= a < active@[i]@.len() && active@[i]@[a].positive && 0
                <= b < g@.len() implies #[trigger] sup_pair_handled(
            ord,
            active@[i]@,
            a,
            g@,
            b,
            all,
            start,
        ) by {
            lemma_sup_pair_transfer(ord, active@[i]@, a, g@, b, after_active, all, start, start);
        }
        assert forall|a: int, b: int|
            0 <= a < g@.len() && g@[a].positive && 0 <= b < g2@.len() implies #[trigger] sup_pair_handled(
            ord,
            g@,
            a,
            g2@,
            b,
            all,
            start,
        ) by {
            assert(sup_pair_handled(ord, g@, a, g2@, b, after_self, after_active.len() as int));
            lemma_sup_pair_transfer(
                ord,
                g@,
                a,
                g2@,
                b,
                after_self,
                all,
                after_active.len() as int,
                start,
            );
        }
        assert forall|a: int, b: int| 0 <= a < g@.len() && 0 <= b < g@.len() implies #[trigger] ef_pair_handled(
            ord,
            g@,
            a,
            b,
            all,
            start,
        ) by {
            assert(ef_pair_handled(ord, g@, a, b, after_factoring, after_self.len() as int));
            lemma_ef_pair_transfer(
                ord,
                g@,
                a,
                b,
                after_factoring,
                all,
                after_self.len() as int,
                start,
            );
        }
        assert forall|a: int| 0 <= a < g@.len() implies er_blocked(ord, g@, a) || #[trigger] er_generated(
            ord,
            g@,
            a,
            all,
            start,
        ) by {
            if !er_blocked(ord, g@, a) {
                assert(er_generated(ord, g@, a, all, after_factoring.len() as int));
                lemma_er_transfer(ord, g@, a, all, all, after_factoring.len() as int, start);
            }
        }
    }
    statistics.superposition_inferred = count_up(statistics.superposition_inferred, sup_total);
    statistics.equality_factoring_inferred = count_up(
        statistics.equality_factoring_inferred,
        ef_count,
    );
    statistics.equality_resolution_inferred = count_up(
        statistics.equality_resolution_inferred,
        er_count,
    );
    statistics.inferred = count_up(statistics.inferred, children.len() - first);
}

/// The sum of a counter and a number, cut off at the largest number.
pub open spec fn count_up_spec(counter: u64, by: int) -> u64 {
    if counter + by <= u64::MAX {
        (counter + by) as u64
    } else {
        u64::MAX
    }
}

/// Whether the child `h` was dealt with: simplified, it is a tautology, or
/// an active clause subsumes it, or it is among the passive clauses from
/// place `from` on.
pub open spec fn child_handled(
    ord: TermOrdering,
    rules: Seq<(crate::term::TermV, crate::term::TermV)>,
    active: Seq<Clause>,
    h: ClauseV,
    passive: Seq<crate::clause_selection::passive::PassiveEntry>,
    from: int,
) -> bool {
    exists|d: ClauseV| #[trigger]
        simplified(ord, rules, active, h, d) && (is_tautology(d) || subsumed_by_some(active, d)
            || queued(passive, from, d))
}

/// Whether the child `h` is left out where it finds no ID: simplified, it
/// is no tautology and no active clause subsumes it.
pub open spec fn child_left_out(
    ord: TermOrdering,
    rules: Seq<(crate::term::TermV, crate::term::TermV)>,
    active: Seq<Clause>,
    h: ClauseV,
) -> bool {
    exists|d: ClauseV| #[trigger]
        simplified(ord, rules, active, h, d) && !is_tautology(d) && !subsumed_by_some(active, d)
}

/// Whether the IDs ran out while the children became passive clauses: no
/// ID is left, each ID that was given went to a passive clause that was
/// added, and a child that is not redundant found none.
pub open spec fn ids_ran_out(
    ord: TermOrdering,
    rules: Seq<(crate::term::TermV, crate::term::TermV)>,
    active: Seq<Clause>,
    children: Seq<Clause>,
    next_id: u64,
    queue: int,
    after: PassiveSet,
) -> bool {
    &&& after.next_id == u64::MAX
    &&& after.next_id - next_id == after.entries@.len() - queue
    &&& exists|j: int|
        0 <= j < children.len() && child_left_out(ord, rules, active, (#[trigger] children[j])@)
}

/// Whether the clause `d` is among the passive clauses from place `from` on.
pub open spec fn queued(
    passive: Seq<crate::clause_selection::passive::PassiveEntry>,
    from: int,
    d: ClauseV,
) -> bool {
    exists|k: int| from <= k < passive.len() && (#[trigger] passive[k]).clause@ == d
}

/// A child that was dealt with stays so when more clauses become passive.
pub proof fn lemma_child_handled_grows(
    ord: TermOrdering,
    rules: Seq<(crate::term::TermV, crate::term::TermV)>,
    active: Seq<Clause>,
    h: ClauseV,
    before: Seq<crate::clause_selection::passive::PassiveEntry>,
    after: Seq<crate::clause_selection::passive::PassiveEntry>,
    from: int,
)
    requires
        child_handled(ord, rules, active, h, before, from),
        0 <= from,
        before.len() <= after.len(),
        forall|k: int| 0 <= k < before.len() ==> after[k] == before[k],
    ensures
        child_handled(ord, rules, active, h, after, from),
{
    let d = choose|d: ClauseV| #[trigger]
        simplified(ord, rules, active, h, d) && (is_tautology(d) || subsumed_by_some(active, d)
            || queued(before, from, d));
    if queued(before, from, d) {
        let k = choose|k: int| from <= k < before.len() && (#[trigger] before[k]).clause@ == d;
        assert(after[k] == before[k]);
        assert(queued(after, from, d));
    }
}

/// Whether the passive clauses `added` are what the last `m` children
/// became, the last child first, with `sd` holding what each child was
/// simplified to: a child that is, simplified, a tautology or subsumed by
/// an active clause is left out, and every other child stands, simplified,
/// among the passive clauses that were added.
pub open spec fn enqueued(
    ord: TermOrdering,
    rules: Seq<(crate::term::TermV, crate::term::TermV)>,
    active: Seq<Clause>,
    children: Seq<Clause>,
    sd: Seq<ClauseV>,
    m: int,
    added: Seq<crate::clause_selection::passive::PassiveEntry>,
    steps: nat,
) -> bool
    decreases m,
{
    if m <= 0 {
        added.len() == 0
    } else {
        let k = children.len() - m;
        &&& simplified_within(ord, rules, active, children[k]@, sd[k], steps)
        &&& if is_tautology(sd[k]) || subsumed_by_some(active, sd[k]) {
            enqueued(ord, rules, active, children, sd, m - 1, added, steps)
        } else {
            &&& added.len() >= 1
            &&& added.last().clause@ == sd[k]
            &&& enqueued(ord, rules, active, children, sd, m - 1, added.drop_last(), steps)
        }
    }
}

/// Whether the passive clauses `added` are what the children became, as
/// `enqueued` says.
pub open spec fn enqueued_all(
    ord: TermOrdering,
    rules: Seq<(crate::term::TermV, crate::term::TermV)>,
    active: Seq<Clause>,
    children: Seq<Clause>,
    added: Seq<crate::clause_selection::passive::PassiveEntry>,
    steps: nat,
) -> bool {
    exists|sd: Seq<ClauseV>| #[trigger]
        enqueued(ord, rules, active, children, sd, children.len() as int, added, steps)
}

/// What the earlier children were simplified to does not matter for the
/// last `m` children.
pub proof fn lemma_enqueued_sd(
    ord: TermOrdering,
    rules: Seq<(crate::term::TermV, crate::term::TermV)>,
    active: Seq<Clause>,
    children: Seq<Clause>,
    sd: Seq<ClauseV>,
    other: Seq<ClauseV>,
    m: int,
    added: Seq<crate::clause_selection::passive::PassiveEntry>,
    steps: nat,
)
    requires
        enqueued(ord, rules, active, children, sd, m, added, steps),
        forall|k: int| children.len() - m <= k < children.len() ==> other[k] == sd[k],
        m <= children.len(),
    ensures
        enqueued(ord, rules, active, children, other, m, added, steps),
    decreases m,
{
    if m > 0 {
        let k = children.len() - m;
        assert(other[k] == sd[k]);
        if is_tautology(sd[k]) || subsumed_by_some(active, sd[k]) {
            lemma_enqueued_sd(ord, rules, active, children, sd, other, m - 1, added, steps);
        } else {
            lemma_enqueued_sd(
                ord,
                rules,
                active,
                children,
                sd,
                other,
                m - 1,
                added.drop_last(),
                steps,
            );
        }
    }
}

/// Simplifies each child and makes it a passive clause unless it is a
/// tautology or an active clause subsumes it. Yields false where the IDs
/// ran out and a child was left out for that: then no ID is left.
pub(crate) fn enqueue_children(
    term_ordering: &TermOrdering,
    term_index: &TermIndex,
    active: &Vec<Clause>,
    features: &SubsumptionIndex,
    passive: &mut PassiveSet,
    children: Vec<Clause>,
    statistics: &mut ProofStatistics,
    max_steps: usize,
    input: Ghost<Seq<ClauseV>>,
) -> (complete: bool)
    requires
        old(passive).wf(),
        all_entailed(input@, old(passive).clauses()),
        all_entailed(input@, children@),
        all_entailed(input@, active@),
        features.describes(active@),
        rules_entailed(input@, term_index@),
        term_index.wf(),
        old(statistics).analyzed_consistent(),
        old(statistics).inferred == u64::MAX || old(statistics).iterations + old(passive).entries@.len() + children@.len() <= old(statistics).initial_clauses + old(statistics).inferred,
    ensures
        final(passive).wf(),
        all_entailed(input@, final(passive).clauses()),
        final(statistics).consistent_with(final(passive).entries@.len()),
        final(passive).entries@.len() >= old(passive).entries@.len(),
        final(passive).entries@.len() <= old(passive).entries@.len() + children@.len(),
        forall|i: int|
            0 <= i < old(passive).entries@.len() ==> final(passive).entries@[i] == old(passive).entries@[i],
        final(passive).pick_ratio == old(passive).pick_ratio,
        final(passive).since_age == old(passive).since_age,
        final(statistics).initial_clauses == old(statistics).initial_clauses,
        final(statistics).iterations == old(statistics).iterations,
        final(statistics).inferred == old(statistics).inferred,
        final(statistics).same_analyzed(*old(statistics)),
        complete ==> forall|j: int|
            0 <= j < children@.len() ==> child_handled(
                *term_ordering,
                term_index@,
                active@,
                (#[trigger] children@[j])@,
                final(passive).entries@,
                old(passive).entries@.len() as int,
            ),
        !complete ==> final(passive).next_id == u64::MAX,
        final(passive).next_id >= old(passive).next_id,
        final(passive).next_id - old(passive).next_id == final(passive).entries@.len() - old(
            passive,
        ).entries@.len(),
        !complete ==> ids_ran_out(
            *term_ordering,
            term_index@,
            active@,
            children@,
            old(passive).next_id,
            old(passive).entries@.len() as int,
            *final(passive),
        ),
        complete ==> enqueued_all(
            *term_ordering,
            term_index@,
            active@,
            children@,
            final(passive).entries@.skip(old(passive).entries@.len() as int),
            max_steps as nat,
        ),
{
    let ghost start = passive.entries@.len() as int;
    let mut rest = children;
    let mut complete = true;
    let ghost total = rest@.len();
    let ghost mut sd: Seq<ClauseV> = Seq::new(total, |k: int| Seq::<crate::literal::LiteralV>::empty());
    proof {
        assert(passive.entries@.skip(start) =~= Seq::empty());
    }
    while rest.len() > 0
        invariant
            passive.wf(),
            rest@.len() <= total,
            total == children@.len(),
            all_entailed(input@, passive.clauses()),
            all_entailed(input@, rest@),
            all_entailed(input@, active@),
            features.describes(active@),
            rules_entailed(input@, term_index@),
            term_index.wf(),
            statistics.analyzed_consistent(),
            statistics.inferred == u64::MAX || statistics.iterations + passive.entries@.len()
                + rest@.len() <= statistics.initial_clauses + statistics.inferred,
            passive.entries@.len() >= old(passive).entries@.len(),
            passive.entries@.len() + rest@.len() <= old(passive).entries@.len() + total,
            forall|i: int|
                0 <= i < old(passive).entries@.len() ==> passive.entries@[i] == old(passive).entries@[i],
            passive.pick_ratio == old(passive).pick_ratio,
            passive.since_age == old(passive).since_age,
            statistics.initial_clauses == old(statistics).initial_clauses,
            statistics.iterations == old(statistics).iterations,
            statistics.inferred == old(statistics).inferred,
            statistics.same_analyzed(*old(statistics)),
            start == old(passive).entries@.len(),
            rest@ =~= children@.take(rest@.len() as int),
            sd.len() == total,
            complete ==> enqueued(
                *term_ordering,
                term_index@,
                active@,
                children@,
                sd,
                total - rest@.len(),
                passive.entries@.skip(start),
                max_steps as nat,
            ),
            !complete ==> passive.next_id == u64::MAX,
            passive.next_id >= old(passive).next_id,
            passive.next_id - old(passive).next_id == passive.entries@.len() - old(
                passive,
            ).entries@.len(),
            !complete ==> exists|j: int|
                rest@.len() <= j < total && child_left_out(
                    *term_ordering,
                    term_index@,
                    active@,
                    (#[trigger] children@[j])@,
                ),
            complete ==> forall|j: int|
                rest@.len() <= j < total ==> child_handled(
                    *term_ordering,
                    term_index@,
                    active@,
                    (#[trigger] children@[j])@,
                    passive.entries@,
                    start,
                ),
        decreases rest.len(),
    {
        let ghost before = rest@;
        let ghost entries_before = passive.entries@;
        let mut h = rest.pop().unwrap();
        proof {
            assert(h == before[before.len() - 1]);
            assert(entails(input@, h@));
            assert forall|i: int| 0 <= i < rest@.len() implies entails(
                input@,
                (#[trigger] rest@[i])@,
            ) by {
                assert(rest@[i] == before[i]);
            }
        }
        let ghost h0 = h@;
        simplify_clause(term_ordering, term_index, active, &mut h, max_steps);
        proof {
            lemma_entails_simplified_clause(input@, *term_ordering, term_index@, active@, h0, h@);
        }
        let ghost hv = h@;
        let ghost sd0 = sd;
        let ghost added0 = passive.entries@.skip(start);
        proof {
            let j0 = rest@.len() as int;
            assert(children@[j0] == before[j0]);
            sd = sd0.update(j0, hv);
            if complete {
                lemma_enqueued_sd(
                    *term_ordering,
                    term_index@,
                    active@,
                    children@,
                    sd0,
                    sd,
                    total - before.len(),
                    added0,
                    max_steps as nat,
                );
            }
        }
        let redundant = trivial(&h) || forward_subsumed_indexed(active, features, &h);
        if !redundant {
            if passive.has_room() {
                let ghost old_clauses = passive.clauses();
                passive.push(h);
                statistics.nontrivial_inferred = count_up(statistics.nontrivial_inferred, 1);
                proof {
                    assert(passive.entries@.skip(start).drop_last() =~= added0);
                    assert(passive.entries@.skip(start).last().clause@ == hv);
                    assert(passive.entries@[entries_before.len() as int].clause@ == hv);
                    assert(queued(passive.entries@, start, hv));
                    assert forall|i: int| 0 <= i < passive.clauses().len() implies entails(
                        input@,
                        (#[trigger] passive.clauses()[i])@,
                    ) by {
                        if i < old_clauses.len() {
                            assert(passive.clauses()[i] == old_clauses[i]);
                        } else {
                            assert(passive.clauses()[i]@ == h@);
                        }
                    }
                }
            } else {
                complete = false;
                proof {
                    let j0 = rest@.len() as int;
                    assert(children@[j0] == before[j0]);
                    assert(simplified(*term_ordering, term_index@, active@, h0, hv));
                    assert(child_left_out(*term_ordering, term_index@, active@, children@[j0]@));
                }
            }
        }
        proof {
            let j0 = rest@.len() as int;
            assert(children@[j0] == before[j0]);
            assert(rest@ =~= children@.take(j0));
            if complete {
                assert(simplified(*term_ordering, term_index@, active@, h0, hv));
                assert(child_handled(
                    *term_ordering,
                    term_index@,
                    active@,
                    children@[j0]@,
                    passive.entries@,
                    start,
                ));
                assert forall|j: int| rest@.len() <= j < total implies child_handled(
                    *term_ordering,
                    term_index@,
                    active@,
                    (#[trigger] children@[j])@,
                    passive.entries@,
                    start,
                ) by {
                    if j > j0 {
                        lemma_child_handled_grows(
                            *term_ordering,
                            term_index@,
                            active@,
                            children@[j]@,
                            entries_before,
                            passive.entries@,
                            start,
                        );
                    }
                }
            }
        }
    }
    complete
}

} // verus!
