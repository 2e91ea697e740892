//! What the simplifications and inferences keep: every clause of a search
//! follows from the clauses that the search started with.
use crate::clause::{apply_clause, Clause, ClauseV};
use crate::inference::equality_factoring::{ef_conclusion, lemma_ef_sound};
use crate::inference::equality_resolution::{er_conclusion, lemma_er_sound};
use crate::inference::superposition::{lemma_sup_sound, sup_conclusion};
use crate::literal::LiteralV;
use crate::ordering::term_ordering::TermOrdering;
use crate::semantics::{
    clause_holds, entails, lemma_instance, literal_holds, models, models_all, unit_equation,
    Interpretation, Valuation,
};
use crate::simplification::literal_deletion::{
    lemma_without_duplicates_holds, lemma_without_resolved_holds, without_duplicates,
    without_resolved,
};
use crate::simplification::rewriting::{lemma_rewritten_sound, rewritten, rule_clauses};
use crate::term::{SubstV, TermV};
use vstd::prelude::*;

verus! {

/// The views of a sequence of clauses.
pub open spec fn clause_views(cs: Seq<Clause>) -> Seq<ClauseV> {
    Seq::new(cs.len(), |i: int| cs[i]@)
}

/// Whether every clause follows from `input`.
pub open spec fn all_entailed(input: Seq<ClauseV>, cs: Seq<Clause>) -> bool {
    forall|i: int| 0 <= i < cs.len() ==> entails(input, (#[trigger] cs[i])@)
}

/// Whether every rule, as a unit equation, follows from `input`.
pub open spec fn rules_entailed(input: Seq<ClauseV>, rules: Seq<(TermV, TermV)>) -> bool {
    forall|i: int|
        0 <= i < rules.len() ==> entails(
            input,
            unit_equation((#[trigger] rules[i]).0, rules[i].1),
        )
}

/// A model of `input` is a model of the rules that follow from it.
pub proof fn lemma_models_rules(input: Seq<ClauseV>, rules: Seq<(TermV, TermV)>, m: Interpretation)
    requires
        rules_entailed(input, rules),
        models_all(m, input),
    ensures
        models_all(m, rule_clauses(rules)),
{
    assert forall|i: int| 0 <= i < rule_clauses(rules).len() implies models(
        m,
        #[trigger] rule_clauses(rules)[i],
    ) by {
        assert(entails(input, unit_equation(rules[i].0, rules[i].1)));
    }
}

/// A rewritten clause follows from what the clause and the rules follow from.
pub proof fn lemma_entails_rewritten(
    input: Seq<ClauseV>,
    ord: TermOrdering,
    rules: Seq<(TermV, TermV)>,
    c: ClauseV,
    d: ClauseV,
)
    requires
        rules_entailed(input, rules),
        entails(input, c),
        rewritten(ord, rules, c, d),
    ensures
        entails(input, d),
{
    assert forall|m: Interpretation| #[trigger] models_all(m, input) implies models(m, d) by {
        lemma_models_rules(input, rules, m);
        lemma_rewritten_sound(ord, rules, c, d, m);
    }
}

/// A clause without its resolved and repeated literals follows from what
/// the clause follows from.
pub proof fn lemma_entails_simplified(input: Seq<ClauseV>, c: ClauseV)
    requires
        entails(input, c),
    ensures
        entails(input, without_duplicates(without_resolved(c))),
{
    let d = without_duplicates(without_resolved(c));
    assert forall|m: Interpretation| #[trigger] models_all(m, input) implies models(m, d) by {
        assert forall|v: Valuation| #[trigger] clause_holds(d, m, v) by {
            assert(clause_holds(c, m, v));
            lemma_without_resolved_holds(c, m, v);
            lemma_without_duplicates_holds(without_resolved(c), m, v);
        }
    }
}

/// An instance of a clause follows from what the clause follows from.
pub proof fn lemma_entails_instance(input: Seq<ClauseV>, c: ClauseV, s: SubstV)
    requires
        entails(input, c),
    ensures
        entails(input, apply_clause(c, s)),
{
    assert forall|m: Interpretation| #[trigger] models_all(m, input) implies models(
        m,
        apply_clause(c, s),
    ) by {
        lemma_instance(m, c, s);
    }
}

/// The conclusion of equality resolution follows from what the premise follows from.
pub proof fn lemma_entails_er(input: Seq<ClauseV>, ord: TermOrdering, c: ClauseV, g: ClauseV)
    requires
        entails(input, c),
        er_conclusion(ord, c, g),
    ensures
        entails(input, g),
{
    assert forall|m: Interpretation| #[trigger] models_all(m, input) implies models(m, g) by {
        lemma_er_sound(ord, c, g, m);
    }
}

/// The conclusion of equality factoring follows from what the premise follows from.
pub proof fn lemma_entails_ef(input: Seq<ClauseV>, ord: TermOrdering, c: ClauseV, g: ClauseV)
    requires
        entails(input, c),
        ef_conclusion(ord, c, g),
    ensures
        entails(input, g),
{
    assert forall|m: Interpretation| #[trigger] models_all(m, input) implies models(m, g) by {
        lemma_ef_sound(ord, c, g, m);
    }
}

/// The conclusion of superposition follows from what the premises follow from.
pub proof fn lemma_entails_sup(
    input: Seq<ClauseV>,
    ord: TermOrdering,
    c1: ClauseV,
    c2: ClauseV,
    g: ClauseV,
)
    requires
        entails(input, c1),
        entails(input, c2),
        sup_conclusion(ord, c1, c2, g),
    ensures
        entails(input, g),
{
    assert forall|m: Interpretation| #[trigger] models_all(m, input) implies models(m, g) by {
        lemma_sup_sound(ord, c1, c2, g, m);
    }
}

/// A unit equation follows, in either direction, from what the clause that
/// states it follows from.
pub proof fn lemma_entails_unit(input: Seq<ClauseV>, c: ClauseV, l: TermV, r: TermV)
    requires
        entails(input, c),
        c.len() == 1,
        c[0].positive,
        (c[0].lhs == l && c[0].rhs == r) || (c[0].lhs == r && c[0].rhs == l),
    ensures
        entails(input, unit_equation(l, r)),
{
    let u = unit_equation(l, r);
    assert forall|m: Interpretation| #[trigger] models_all(m, input) implies models(m, u) by {
        assert forall|v: Valuation| #[trigger] clause_holds(u, m, v) by {
            assert(clause_holds(c, m, v));
            let i = choose|i: int| 0 <= i < c.len() && literal_holds(#[trigger] c[i], m, v);
            assert(u[0] == LiteralV { positive: true, lhs: l, rhs: r });
            assert(literal_holds(u[0], m, v));
        }
    }
}

} // verus!
