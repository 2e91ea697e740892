//! The state of a proof search and the given-clause loop.
use crate::clause::{Clause, ClauseV};
use crate::clause_selection::passive::PassiveSet;
use crate::ordering::term_ordering::TermOrdering;
use crate::proof_result::ProofResult;
use crate::proof_search::entailment::{
    all_entailed, clause_views, lemma_entails_instance, lemma_entails_unit, rules_entailed,
};
use crate::proof_search::steps::{
    all_inferred, back_simplified, back_simplify, child_handled, enqueue_children, enqueued_all,
    forward_subsumed_indexed, generated_from, rule_of,
    ids_ran_out,
    generate, lemma_entails_derived, lemma_entails_simplified_clause, orient_rule, simplified,
    simplified_within,
    simplify_clause, subsumed_by_some, was_active,
};
use crate::simplification::feature_vector::{features_of, SubsumptionIndex};
use crate::simplification::subsumption::subsumes_spec;
use crate::simplification::tautology_deletion::is_tautology;
use crate::proof_statistics::{count_up, ProofStatistics};
use crate::renaming::{
    counted, has_variables, lemma_renamed_short, rename_clause, renamed, short_of_variables,
};
use crate::semantics::{entails, lemma_empty_clause, unsatisfiable};
use crate::simplification::rewriting::TermIndex;
use crate::simplification::tautology_deletion::trivial;
use crate::term::SubstV;
use vstd::prelude::*;

verus! {

/// The state of a proof search: the active clauses with the index of their
/// features, the passive clauses, the rewrite rules of the active unit
/// equations, the next unused variable and the counters. `input` holds the clauses that the search started with.
pub struct ProofState {
    pub ordering: TermOrdering,
    pub active: Vec<Clause>,
    pub subsumption_index: SubsumptionIndex,
    pub passive: PassiveSet,
    pub term_index: TermIndex,
    pub var_cnt: i64,
    pub max_rewrite_steps: usize,
    pub statistics: ProofStatistics,
    pub input: Ghost<Seq<ClauseV>>,
}

/// How one iteration of the loop ended.
#[derive(Debug, Clone, Copy, PartialEq, Eq, Structural)]
pub enum StepOutcome {
    /// The empty clause was derived.
    Refutation,
    /// There was no passive clause left.
    Saturated,
    /// A clause was analyzed; the search goes on.
    Continue,
    /// The variables or the IDs ran out.
    ResourceOut,
}

/// How a proof search ended.
#[derive(Debug, Clone, Copy, PartialEq, Eq, Structural)]
pub enum SaturationResult {
    /// The empty clause was derived: the clauses have no model.
    Refutation,
    /// No passive clause is left and the empty clause was not derived.
    Saturated,
    /// The iterations, the variables or the IDs ran out.
    ResourceOut,
}

impl ProofState {
    /// Whether the state is sound: the passive set is well formed, every
    /// active clause, passive clause and rewrite rule follows from the
    /// clauses that the search started with, and the counters are consistent.
    pub open spec fn wf(&self) -> bool {
        &&& self.passive.wf()
        &&& self.var_cnt <= 0
        &&& all_entailed(self.input@, self.active@)
        &&& self.subsumption_index.describes(self.active@)
        &&& all_entailed(self.input@, self.passive.clauses())
        &&& rules_entailed(self.input@, self.term_index@)
        &&& self.term_index.wf()
        &&& self.statistics.consistent_with(self.passive.entries@.len())
    }

    /// A search that starts with the given clauses, all passive. After
    /// `pick_ratio` choices by size a clause is chosen by age. Each side of
    /// a literal is rewritten in at most `max_rewrite_steps` steps.
    pub fn new(
        ordering: TermOrdering,
        clauses: Vec<Clause>,
        pick_ratio: u64,
        max_rewrite_steps: usize,
    ) -> (state: ProofState)
        ensures
            state.wf(),
            state.input@ == clause_views(clauses@),
            state.ordering == ordering,
            state.active@.len() == 0,
            state.term_index@.len() == 0,
            state.passive.entries@.len() == clauses@.len(),
            forall|i: int|
                0 <= i < clauses@.len() ==> (#[trigger] state.passive.entries@[i]).clause@
                    == clauses@[i]@ && state.passive.entries@[i].clause.id == i,
            state.passive.pick_ratio == pick_ratio,
            state.max_rewrite_steps == max_rewrite_steps,
            state.statistics.initial_clauses == clauses@.len(),
            state.statistics.iterations == 0,
            state.statistics.inferred == 0,
    {
        let ghost input = clause_views(clauses@);
        let mut passive = PassiveSet::new(pick_ratio, 2, 1);
        let mut statistics = ProofStatistics::new();
        let n = clauses.len();
        let mut i: usize = 0;
        while i < n
            invariant
                0 <= i <= n,
                n == clauses@.len(),
                input == clause_views(clauses@),
                passive.wf(),
                passive.next_id == i,
                passive.entries@.len() == i,
                passive.pick_ratio == pick_ratio,
                passive.since_age == 0,
                all_entailed(input, passive.clauses()),
                forall|k: int|
                    0 <= k < i ==> (#[trigger] passive.entries@[k]).clause@ == clauses@[k]@
                        && passive.entries@[k].clause.id == k,
            decreases n - i,
        {
            let ghost old_clauses = passive.clauses();
            passive.push(clauses[i].clone());
            proof {
                assert forall|k: int| 0 <= k < passive.clauses().len() implies entails(
                    input,
                    (#[trigger] passive.clauses()[k])@,
                ) by {
                    if k < old_clauses.len() {
                        assert(passive.clauses()[k] == old_clauses[k]);
                    } else {
                        assert(passive.clauses()[k]@ == input[i as int]);
                    }
                }
            }
            i += 1;
        }
        statistics.initial_clauses = count_up(0, n);
        ProofState {
            ordering,
            active: Vec::new(),
            subsumption_index: SubsumptionIndex::new(),
            passive,
            term_index: TermIndex::new(),
            var_cnt: 0,
            max_rewrite_steps,
            statistics,
            input: Ghost(input),
        }
    }

    /// The counters of the search.
    pub fn get_statistics(&self) -> (s: ProofStatistics)
        ensures
            s == self.statistics,
    {
        self.statistics
    }

    /// The number of active clauses.
    pub fn active_count(&self) -> (n: usize)
        ensures
            n == self.active@.len(),
    {
        self.active.len()
    }

    /// The number of passive clauses.
    pub fn passive_count(&self) -> (n: usize)
        ensures
            n == self.passive.entries@.len(),
    {
        self.passive.len()
    }
}

/// One iteration of the given-clause algorithm.
///
/// Without a passive clause the state stays as it is and the search is
/// saturated. Otherwise the best passive clause is taken and simplified. A
/// tautology or a clause that an active clause subsumes is dropped. The
/// empty clause ends the search: the clauses that the search started with
/// have no model. Any other clause is used on the active clauses, gets new
/// variables, becomes active, and what is inferred from it becomes passive.
/// The resources ran out where no variable or no ID is left for that.
pub fn saturation_step(state: &mut ProofState) -> (r: StepOutcome)
    requires
        old(state).wf(),
    ensures
        final(state).wf(),
        final(state).input@ == old(state).input@,
        final(state).ordering == old(state).ordering,
        final(state).max_rewrite_steps == old(state).max_rewrite_steps,
        final(state).passive.pick_ratio == old(state).passive.pick_ratio,
        final(state).statistics.initial_clauses == old(state).statistics.initial_clauses,
        (r is Saturated) == (old(state).passive.entries@.len() == 0),
        r is Saturated ==> final(state).active@ == old(state).active@ && final(state).passive.entries@ == old(state).passive.entries@ && final(state).statistics == old(state).statistics,
        !(r is Saturated) ==> final(state).statistics.iterations == count_up_one(
            old(state).statistics.iterations,
        ),
        r is Refutation ==> unsatisfiable(final(state).input@),
        r is Refutation ==> exists|k: int|
            {
                &&& #[trigger] old(state).passive.best(k)
                &&& final(state).passive.entries@ == old(state).passive.entries@.remove(k)
                &&& simplified(
                    old(state).ordering,
                    old(state).term_index@,
                    old(state).active@,
                    old(state).passive.entries@[k].clause@,
                    Seq::empty(),
                )
            },
        r is Refutation ==> final(state).active@ == old(state).active@,
        r is Continue ==> (exists|k: int| #[trigger] step_dropped(*old(state), *final(state), k))
            || (exists|k: int, d: ClauseV| #[trigger] step_analyzed(*old(state), *final(state), k, d)),
        !(r is Saturated) ==> exists|k: int|
            {
                &&& #[trigger] old(state).passive.best(k)
                &&& final(state).passive.entries@.len() >= old(state).passive.entries@.len() - 1
                &&& forall|i: int|
                    0 <= i < old(state).passive.entries@.len() - 1 ==> final(state).passive.entries@[i] == old(state).passive.entries@.remove(k)[i]
            },
        forall|i: int|
            0 <= i < final(state).active@.len() - 1 ==> was_active(
                old(state).active@,
                #[trigger] final(state).active@[i],
            ),
        final(state).active@.len() <= old(state).active@.len() + 1,
        final(state).var_cnt <= old(state).var_cnt,
        final(state).term_index@.len() >= old(state).term_index@.len(),
        r is ResourceOut ==> out_of_resources(*final(state)),
        r is ResourceOut ==> exists|k: int, d: ClauseV| #[trigger]
            step_starved(*old(state), *final(state), k, d),
        stepped(*old(state), *final(state), r),
{
    let ghost input = state.input@;
    let ghost old_passive = state.passive.clauses();
    let g = match state.passive.pop_best() {
        None => {
            return StepOutcome::Saturated;
        },
        Some(g) => g,
    };
    let ghost k = choose|k: int|
        {
            &&& #[trigger] old(state).passive.best(k)
            &&& g == old(state).passive.entries@[k].clause
            &&& state.passive.entries@ == old(state).passive.entries@.remove(k)
        };
    proof {
        assert(g == old_passive[k]);
        assert forall|i: int| 0 <= i < state.passive.clauses().len() implies entails(
            input,
            (#[trigger] state.passive.clauses()[i])@,
        ) by {
            if i < k {
                assert(state.passive.clauses()[i] == old_passive[i]);
            } else {
                assert(state.passive.clauses()[i] == old_passive[i + 1]);
            }
        }
    }
    state.statistics.iterations = count_up(state.statistics.iterations, 1);
    let mut g = g;
    let ghost g0 = g@;
    simplify_clause(
        &state.ordering,
        &state.term_index,
        &state.active,
        &mut g,
        state.max_rewrite_steps,
    );
    proof {
        assert(simplified_within(
            old(state).ordering,
            old(state).term_index@,
            old(state).active@,
            g0,
            g@,
            old(state).max_rewrite_steps as nat,
        ));
    }
    proof {
        lemma_entails_simplified_clause(
            input,
            state.ordering,
            state.term_index@,
            state.active@,
            g0,
            g@,
        );
    }
    if trivial(&g) {
        state.statistics.trivial = count_up(state.statistics.trivial, 1);
        proof {
            assert(step_dropped(*old(state), *state, k));
        }
        return StepOutcome::Continue;
    }
    if g.is_empty() {
        proof {
            assert(g@ =~= Seq::empty());
            lemma_empty_clause(input);
            assert(old(state).passive.best(k));
            assert(step_refuted(*old(state), *state, k));
        }
        return StepOutcome::Refutation;
    }
    if forward_subsumed_indexed(&state.active, &state.subsumption_index, &g) {
        state.statistics.forward_subsumed = count_up(state.statistics.forward_subsumed, 1);
        proof {
            assert(step_dropped(*old(state), *state, k));
        }
        return StepOutcome::Continue;
    }
    state.statistics.nonredundant_analyzed = count_up(state.statistics.nonredundant_analyzed, 1);
    let ghost dv = g@;
    let r = analyze(state, g);
    proof {
        if r is Continue {
            assert(step_analyzed(*old(state), *state, k, dv));
        }
        if r is ResourceOut {
            assert(step_starved(*old(state), *state, k, dv));
        }
    }
    r
}

/// Whether no variable or no ID is left in the state.
pub open spec fn out_of_resources(state: ProofState) -> bool {
    state.passive.next_id == u64::MAX || state.var_cnt == i64::MIN
}

/// Whether an iteration took the `k`-th passive clause and found that it
/// simplifies to the empty clause.
pub open spec fn step_refuted(before: ProofState, after: ProofState, k: int) -> bool {
    &&& before.passive.best(k)
    &&& after.active@ == before.active@
    &&& after.passive.entries@ == before.passive.entries@.remove(k)
    &&& simplified(
        before.ordering,
        before.term_index@,
        before.active@,
        before.passive.entries@[k].clause@,
        Seq::empty(),
    ) && simplified_within(
        before.ordering,
        before.term_index@,
        before.active@,
        before.passive.entries@[k].clause@,
        Seq::empty(),
        before.max_rewrite_steps as nat,
    )
}

/// Whether `after` is the state after one iteration on the state `before`
/// that ended with `r`.
///
/// Without a passive clause nothing changes and the search is saturated.
/// Else an iteration is counted. A refutation means that the best passive
/// clause simplifies to the empty clause. After an iteration that lets the
/// search go on, the best passive clause was dropped or analyzed. The
/// resources ran out only where the best passive clause could not be
/// analyzed to the end: it has more variables than are left for it, or the
/// IDs ran out for what was inferred from it.
pub open spec fn stepped(before: ProofState, after: ProofState, r: StepOutcome) -> bool {
    &&& after.wf()
    &&& after.input@ == before.input@
    &&& after.ordering == before.ordering
    &&& after.max_rewrite_steps == before.max_rewrite_steps
    &&& after.passive.pick_ratio == before.passive.pick_ratio
    &&& after.statistics.initial_clauses == before.statistics.initial_clauses
    &&& (r is Saturated) == (before.passive.entries@.len() == 0)
    &&& r is Saturated ==> after.active@ == before.active@ && after.passive.entries@
        == before.passive.entries@ && after.statistics == before.statistics
    &&& !(r is Saturated) ==> after.statistics.iterations == count_up_one(
        before.statistics.iterations,
    )
    &&& r is Refutation ==> exists|k: int| #[trigger] step_refuted(before, after, k)
    &&& r is Continue ==> (exists|k: int| #[trigger] step_dropped(before, after, k)) || (exists|
        k: int,
        d: ClauseV,
    | #[trigger] step_analyzed(before, after, k, d))
    &&& r is ResourceOut ==> out_of_resources(after) && exists|k: int, d: ClauseV| #[trigger]
        step_starved(before, after, k, d)
}

/// Whether the states are those of a search, from one iteration to the
/// next, that ended with `r` after at most `max` iterations: every
/// iteration but the last let the search go on, and the last one ended it
/// with a refutation or as saturated or because the resources ran out, or
/// it was the last of `max` iterations.
pub open spec fn ran(states: Seq<ProofState>, r: SaturationResult, max: int) -> bool {
    let n = states.len() - 1;
    &&& 0 <= n <= max
    &&& forall|i: int|
        0 <= i < n - 1 ==> stepped(#[trigger] states[i], states[i + 1], StepOutcome::Continue)
    &&& match r {
        SaturationResult::Refutation => n >= 1 && stepped(
            states[n - 1],
            states[n],
            StepOutcome::Refutation,
        ),
        SaturationResult::Saturated => n >= 1 && stepped(
            states[n - 1],
            states[n],
            StepOutcome::Saturated,
        ),
        SaturationResult::ResourceOut => (n >= 1 && stepped(
            states[n - 1],
            states[n],
            StepOutcome::ResourceOut,
        )) || (n == max && (n == 0 || stepped(states[n - 1], states[n], StepOutcome::Continue))),
    }
}

/// Whether a search of at most `max` iterations leads from the state
/// `before` to the state `after` and ends with `r`.
pub open spec fn searched(before: ProofState, after: ProofState, r: SaturationResult, max: int) -> bool {
    exists|states: Seq<ProofState>|
        states.len() >= 1 && states[0] == before && states.last() == after && #[trigger] ran(
            states,
            r,
            max,
        )
}

/// Whether the state is that of a search which starts with the clauses,
/// all passive, in their order.
pub open spec fn starts_with(
    state: ProofState,
    ordering: TermOrdering,
    clauses: Seq<ClauseV>,
    pick_ratio: u64,
    max_rewrite_steps: usize,
) -> bool {
    &&& state.wf()
    &&& state.input@ == clauses
    &&& state.ordering == ordering
    &&& state.active@.len() == 0
    &&& state.term_index@.len() == 0
    &&& state.passive.entries@.len() == clauses.len()
    &&& forall|i: int|
        0 <= i < clauses.len() ==> (#[trigger] state.passive.entries@[i]).clause@ == clauses[i]
            && state.passive.entries@[i].clause.id == i
    &&& state.passive.pick_ratio == pick_ratio
    &&& state.max_rewrite_steps == max_rewrite_steps
    &&& state.statistics.initial_clauses == clauses.len()
    &&& state.statistics.iterations == 0
    &&& state.statistics.inferred == 0
}

/// Whether `d` is `c` with its variables renamed to new ones.
pub open spec fn renaming_of(c: ClauseV, d: ClauseV) -> bool {
    exists|rho: SubstV, lo: int, hi: int| renamed(c, d, rho, lo, hi)
}

/// What the analysis of the clause `d` did, with the clauses `g` and `g2`
/// that were inferred from and the clauses `children` that were inferred:
/// `g` and `g2` are `d` with new variables; the active clauses are the
/// earlier ones that `d` does not subsume and that its rule does not
/// rewrite, and then `g`; every inference from `g` that is not blocked has
/// its conclusion among the children from place `first` on; and each child
/// was dealt with: simplified, it is redundant or a passive clause from
/// place `queue` on, and the passive clauses from place `queue` on are
/// the children that are not redundant, the last child first.
pub open spec fn activated_with(
    ord: TermOrdering,
    active: Seq<Clause>,
    queue: int,
    after: ProofState,
    d: ClauseV,
    g: ClauseV,
    g2: ClauseV,
    children: Seq<Clause>,
    first: int,
) -> bool {
    &&& worked_with(ord, active, after, d, g, g2, children, first)
    &&& enqueued_all(
        ord,
        after.term_index@,
        after.active@,
        children,
        after.passive.entries@.skip(queue),
        after.max_rewrite_steps as nat,
    )
    &&& forall|j: int|
        0 <= j < children.len() ==> child_handled(
            ord,
            after.term_index@,
            after.active@,
            (#[trigger] children[j])@,
            after.passive.entries@,
            queue,
        )
}

/// What the analysis of the clause `d` did before its children were dealt
/// with: `g` and `g2` are `d` with new variables; the active clauses are
/// the earlier ones that `d` does not subsume and that its rule does not
/// rewrite, and then `g`; the first `first` children are the active
/// clauses that the rule of `d` rewrote; the children from place `first`
/// on are exactly what is inferred from `g`, one child for each inference
/// that is not blocked, in the order of the inferences.
pub open spec fn worked_with(
    ord: TermOrdering,
    active: Seq<Clause>,
    after: ProofState,
    d: ClauseV,
    g: ClauseV,
    g2: ClauseV,
    children: Seq<Clause>,
    first: int,
) -> bool {
    &&& renaming_of(d, g)
    &&& renaming_of(g, g2)
    &&& after.active@.len() >= 1
    &&& after.active@.last()@ == g
    &&& forall|i: int|
        0 <= i < after.active@.len() - 1 ==> was_active(active, #[trigger] after.active@[i])
            && !subsumes_spec(d, after.active@[i]@)
    &&& 0 <= first <= children.len()
    &&& back_used(ord, active, after, d, children.take(first))
    &&& all_inferred(ord, g, g2, after.active@.drop_last(), children, first)
    &&& generated_from(ord, g, g2, after.active@.drop_last(), children, first)
}

/// Whether the clause `d` was used on the clauses `active` as
/// `back_simplified` says, with the active clauses of the state `after`
/// but for the last as the clauses that stay and `rewritten` as the clauses
/// that were rewritten.
pub open spec fn back_used(
    ord: TermOrdering,
    active: Seq<Clause>,
    after: ProofState,
    d: ClauseV,
    rewritten: Seq<Clause>,
) -> bool {
    exists|rules: Seq<(crate::term::TermV, crate::term::TermV)>, rw: Seq<ClauseV>, subsumed: int|
        rule_of(ord, d, rules) && #[trigger] back_simplified(
            ord,
            rules,
            d,
            active,
            rw,
            active.len() as int,
            after.active@.drop_last(),
            rewritten,
            subsumed,
            after.max_rewrite_steps as nat,
        )
}

/// Whether the analysis of the clause `d` ended because the IDs ran out:
/// the clause was used on the active clauses and made active with new
/// variables, but a child that is not redundant found no ID. `queue` is the
/// number of passive clauses and `next_id` the next ID before the analysis.
pub open spec fn exhausted_with(
    ord: TermOrdering,
    active: Seq<Clause>,
    queue: int,
    next_id: u64,
    after: ProofState,
    d: ClauseV,
    g: ClauseV,
    g2: ClauseV,
    children: Seq<Clause>,
    first: int,
) -> bool {
    &&& worked_with(ord, active, after, d, g, g2, children, first)
    &&& ids_ran_out(ord, after.term_index@, after.active@, children, next_id, queue, after.passive)
}

/// Whether the analysis of the clause `d` ended because the IDs ran out.
pub open spec fn exhausted(
    ord: TermOrdering,
    active: Seq<Clause>,
    queue: int,
    next_id: u64,
    after: ProofState,
    d: ClauseV,
) -> bool {
    exists|g: ClauseV, g2: ClauseV, children: Seq<Clause>, first: int| #[trigger]
        exhausted_with(ord, active, queue, next_id, after, d, g, g2, children, first)
}

/// Whether an iteration took the `k`-th passive clause, simplified it to
/// the clause `d`, which was not redundant, and could not analyze it to
/// the end: the variables below the counter do not suffice to rename `d`
/// twice, or the IDs ran out for what was inferred from it.
pub open spec fn step_starved(before: ProofState, after: ProofState, k: int, d: ClauseV) -> bool {
    &&& before.passive.best(k)
    &&& simplified(
        before.ordering,
        before.term_index@,
        before.active@,
        before.passive.entries@[k].clause@,
        d,
    ) && simplified_within(
        before.ordering,
        before.term_index@,
        before.active@,
        before.passive.entries@[k].clause@,
        d,
        before.max_rewrite_steps as nat,
    )
    &&& !is_tautology(d)
    &&& d.len() > 0
    &&& !subsumed_by_some(before.active@, d)
    &&& (short_of_variables(before.var_cnt as int, d) || exhausted(
        before.ordering,
        before.active@,
        before.passive.entries@.len() - 1,
        before.passive.next_id,
        after,
        d,
    ))
}

/// Whether the clause `d` was analyzed: used on the active clauses, made
/// active with new variables, and what was inferred from it dealt with.
pub open spec fn activated(
    ord: TermOrdering,
    active: Seq<Clause>,
    queue: int,
    after: ProofState,
    d: ClauseV,
) -> bool {
    exists|g: ClauseV, g2: ClauseV, children: Seq<Clause>, first: int| #[trigger]
        activated_with(ord, active, queue, after, d, g, g2, children, first)
}

/// Whether an iteration took the `k`-th passive clause and dropped it:
/// simplified, it was a tautology or an active clause subsumed it.
pub open spec fn step_dropped(before: ProofState, after: ProofState, k: int) -> bool {
    &&& before.passive.best(k)
    &&& after.active@ == before.active@
    &&& after.passive.entries@ == before.passive.entries@.remove(k)
    &&& exists|d: ClauseV| #[trigger]
        simplified(
        before.ordering,
        before.term_index@,
        before.active@,
        before.passive.entries@[k].clause@,
        d,
    ) && simplified_within(
        before.ordering,
        before.term_index@,
        before.active@,
        before.passive.entries@[k].clause@,
        d,
        before.max_rewrite_steps as nat,
    )
            && (is_tautology(d) || subsumed_by_some(before.active@, d))
}

/// Whether an iteration took the `k`-th passive clause and analyzed what
/// it was simplified to, the clause `d`, which was neither empty nor a
/// tautology nor subsumed by an active clause.
pub open spec fn step_analyzed(before: ProofState, after: ProofState, k: int, d: ClauseV) -> bool {
    &&& before.passive.best(k)
    &&& simplified(
        before.ordering,
        before.term_index@,
        before.active@,
        before.passive.entries@[k].clause@,
        d,
    ) && simplified_within(
        before.ordering,
        before.term_index@,
        before.active@,
        before.passive.entries@[k].clause@,
        d,
        before.max_rewrite_steps as nat,
    )
    &&& !is_tautology(d)
    &&& d.len() > 0
    &&& !subsumed_by_some(before.active@, d)
    &&& activated(
        before.ordering,
        before.active@,
        before.passive.entries@.len() - 1,
        after,
        d,
    )
}

/// Analyzes the clause `g`, which is not redundant: uses it on the active
/// clauses, gives it new variables, makes it active, and makes what is
/// inferred from it passive. The resources ran out where a clause could not
/// get new variables or an ID: then no variable or no ID is left.
fn analyze(state: &mut ProofState, g: Clause) -> (r: StepOutcome)
    requires
        old(state).passive.wf(),
        old(state).var_cnt <= 0,
        all_entailed(old(state).input@, old(state).active@),
        old(state).subsumption_index.describes(old(state).active@),
        all_entailed(old(state).input@, old(state).passive.clauses()),
        rules_entailed(old(state).input@, old(state).term_index@),
        old(state).term_index.wf(),
        entails(old(state).input@, g@),
        old(state).statistics.analyzed_consistent(),
        old(state).statistics.inferred == u64::MAX || old(state).statistics.iterations + old(state).passive.entries@.len() <= old(state).statistics.initial_clauses + old(state).statistics.inferred,
    ensures
        final(state).wf(),
        final(state).input@ == old(state).input@,
        final(state).ordering == old(state).ordering,
        final(state).max_rewrite_steps == old(state).max_rewrite_steps,
        final(state).passive.pick_ratio == old(state).passive.pick_ratio,
        final(state).statistics.initial_clauses == old(state).statistics.initial_clauses,
        final(state).statistics.iterations == old(state).statistics.iterations,
        final(state).passive.entries@.len() >= old(state).passive.entries@.len(),
        forall|i: int|
            0 <= i < old(state).passive.entries@.len() ==> final(state).passive.entries@[i] == old(state).passive.entries@[i],
        forall|i: int|
            0 <= i < final(state).active@.len() - 1 ==> was_active(
                old(state).active@,
                #[trigger] final(state).active@[i],
            ),
        final(state).active@.len() <= old(state).active@.len() + 1,
        final(state).var_cnt <= old(state).var_cnt,
        final(state).term_index@.len() >= old(state).term_index@.len(),
        r is Continue || r is ResourceOut,
        r is Continue ==> activated(
            old(state).ordering,
            old(state).active@,
            old(state).passive.entries@.len() as int,
            *final(state),
            g@,
        ),
        r is ResourceOut ==> out_of_resources(*final(state)),
        r is ResourceOut ==> short_of_variables(old(state).var_cnt as int, g@) || exhausted(
            old(state).ordering,
            old(state).active@,
            old(state).passive.entries@.len() as int,
            old(state).passive.next_id,
            *final(state),
            g@,
        ),
        final(state).passive.next_id >= old(state).passive.next_id,
{
    let ghost input = state.input@;
    let mut g = g;
    let mut children: Vec<Clause> = Vec::new();
    let subsumed = back_simplify(
        &state.ordering,
        &mut state.active,
        &mut state.subsumption_index,
        &g,
        &mut children,
        state.max_rewrite_steps,
        Ghost(input),
    );
    let ghost stayed = state.active@;
    let ghost rewrote = children@;
    let ghost (rules, rw) = choose|
        rules: Seq<(crate::term::TermV, crate::term::TermV)>,
        rw: Seq<ClauseV>,
    |
        rule_of(old(state).ordering, g@, rules) && #[trigger] back_simplified(
            old(state).ordering,
            rules,
            g@,
            old(state).active@,
            rw,
            old(state).active@.len() as int,
            stayed,
            rewrote.skip(0),
            subsumed as int,
            old(state).max_rewrite_steps as nat,
        );
    proof {
        assert(rewrote.skip(0) =~= rewrote);
    }
    state.statistics.backward_subsumed = count_up(state.statistics.backward_subsumed, subsumed);
    state.statistics.inferred = count_up(state.statistics.inferred, children.len());
    let ghost g1 = g@;
    if !rename_clause(&mut g, &mut state.var_cnt) {
        proof {
            let n = old(state).var_cnt - i64::MIN + 1;
            assert(has_variables(g1, n) && 2 * n > old(state).var_cnt - i64::MIN);
        }
        return finish(state, children, StepOutcome::ResourceOut);
    }
    let ghost rho1 = choose|rho: SubstV|
        renamed(g1, g@, rho, state.var_cnt as int, old(state).var_cnt as int) && counted(
            rho,
            state.var_cnt as int,
            old(state).var_cnt as int,
        );
    proof {
        lemma_entails_instance(input, g1, rho1);
    }
    let mut g2 = g.clone();
    let ghost g3 = g2@;
    let ghost cnt = state.var_cnt;
    if !rename_clause(&mut g2, &mut state.var_cnt) {
        proof {
            lemma_renamed_short(g1, g3, rho1, cnt as int, old(state).var_cnt as int);
        }
        return finish(state, children, StepOutcome::ResourceOut);
    }
    proof {
        let rho = choose|rho: SubstV| renamed(g3, g2@, rho, state.var_cnt as int, cnt as int);
        lemma_entails_instance(input, g3, rho);
    }
    match orient_rule(&state.ordering, &g) {
        Some((l, r)) => {
            proof {
                lemma_entails_unit(input, g@, l@, r@);
            }
            let ghost rules = state.term_index@;
            state.term_index.insert(l, r);
            proof {
                assert forall|i: int| 0 <= i < state.term_index@.len() implies entails(
                    input,
                    crate::semantics::unit_equation(
                        (#[trigger] state.term_index@[i]).0,
                        state.term_index@[i].1,
                    ),
                ) by {
                    if i < rules.len() {
                        assert(state.term_index@[i] == rules[i]);
                    }
                }
            }
        },
        None => {},
    }
    let ghost before = children@;
    generate(&state.ordering, &g, &g2, &state.active, &mut children, &mut state.statistics);
    proof {
        assert(generated_from(
            state.ordering,
            g@,
            g2@,
            state.active@,
            children@,
            before.len() as int,
        ));
    }
    proof {
        assert forall|k: int| 0 <= k < children@.len() implies entails(
            input,
            (#[trigger] children@[k])@,
        ) by {
            if k < before.len() {
                assert(children@[k] == before[k]);
            } else {
                lemma_entails_derived(input, state.ordering, g@, g2@, state.active@, children@[k]@);
            }
        }
    }
    let ghost active = state.active@;
    let ghost vectors = state.subsumption_index.vectors@;
    state.subsumption_index.insert(&g);
    state.active.push(g);
    proof {
        assert forall|k: int| 0 <= k < state.active@.len() implies features_of(
            #[trigger] state.subsumption_index.vectors@[k],
            state.active@[k]@,
        ) by {
            if k < active.len() {
                assert(state.active@[k] == active[k]);
                assert(state.subsumption_index.vectors@[k] == vectors[k]);
            }
        }
    }
    proof {
        assert forall|k: int| 0 <= k < state.active@.len() implies entails(
            input,
            (#[trigger] state.active@[k])@,
        ) by {
            if k < active.len() {
                assert(state.active@[k] == active[k]);
            }
        }
    }
    let ghost cs = children@;
    let ghost gv = state.active@.last()@;
    let r = finish(state, children, StepOutcome::Continue);
    proof {
        assert(state.active@.drop_last() =~= active);
        assert(active == stayed);
        assert(cs.take(before.len() as int) =~= rewrote);
        assert(rule_of(old(state).ordering, g1, rules) && back_simplified(
            old(state).ordering,
            rules,
            g1,
            old(state).active@,
            rw,
            old(state).active@.len() as int,
            state.active@.drop_last(),
            cs.take(before.len() as int),
            subsumed as int,
            state.max_rewrite_steps as nat,
        ));
        assert(back_used(
            old(state).ordering,
            old(state).active@,
            *state,
            g1,
            cs.take(before.len() as int),
        ));
        if r is ResourceOut {
            assert(state.active@.drop_last() =~= active);
            assert(renaming_of(g1, gv));
            assert(renaming_of(gv, g2@));
            assert(exhausted_with(
                old(state).ordering,
                old(state).active@,
                old(state).passive.entries@.len() as int,
                old(state).passive.next_id,
                *state,
                g1,
                gv,
                g2@,
                cs,
                before.len() as int,
            ));
        }
        if r is Continue {
            assert(state.active@.drop_last() =~= active);
            assert(renaming_of(g1, gv));
            assert(renaming_of(gv, g2@));
            assert(activated_with(
                old(state).ordering,
                old(state).active@,
                old(state).passive.entries@.len() as int,
                *state,
                g1,
                gv,
                g2@,
                cs,
                before.len() as int,
            ));
        }
    }
    r
}

/// A counter that went up by one, unless it is at the largest number.
pub open spec fn count_up_one(counter: u64) -> u64 {
    if counter < u64::MAX {
        (counter + 1) as u64
    } else {
        u64::MAX
    }
}

/// Makes the children passive clauses and ends the iteration with
/// `outcome`, or with the answer that the resources ran out where a child
/// could not get an ID: then no ID is left. Unless the IDs ran out, every
/// child was dealt with.
fn finish(state: &mut ProofState, children: Vec<Clause>, outcome: StepOutcome) -> (r: StepOutcome)
    requires
        old(state).passive.wf(),
        old(state).var_cnt <= 0,
        all_entailed(old(state).input@, old(state).active@),
        old(state).subsumption_index.describes(old(state).active@),
        all_entailed(old(state).input@, old(state).passive.clauses()),
        all_entailed(old(state).input@, children@),
        rules_entailed(old(state).input@, old(state).term_index@),
        old(state).term_index.wf(),
        old(state).statistics.analyzed_consistent(),
        old(state).statistics.inferred == u64::MAX || old(state).statistics.iterations + old(state).passive.entries@.len() + children@.len() <= old(state).statistics.initial_clauses + old(state).statistics.inferred,
        outcome is Continue || outcome is ResourceOut,
    ensures
        final(state).wf(),
        final(state).input@ == old(state).input@,
        final(state).ordering == old(state).ordering,
        final(state).max_rewrite_steps == old(state).max_rewrite_steps,
        final(state).passive.pick_ratio == old(state).passive.pick_ratio,
        final(state).statistics.initial_clauses == old(state).statistics.initial_clauses,
        final(state).statistics.iterations == old(state).statistics.iterations,
        final(state).passive.entries@.len() >= old(state).passive.entries@.len(),
        forall|i: int|
            0 <= i < old(state).passive.entries@.len() ==> final(state).passive.entries@[i] == old(state).passive.entries@[i],
        final(state).active@ == old(state).active@,
        final(state).var_cnt == old(state).var_cnt,
        final(state).term_index@ == old(state).term_index@,
        r is Continue || r is ResourceOut,
        r == outcome || (r is ResourceOut && final(state).passive.next_id == u64::MAX),
        r is Continue ==> enqueued_all(
            old(state).ordering,
            old(state).term_index@,
            old(state).active@,
            children@,
            final(state).passive.entries@.skip(old(state).passive.entries@.len() as int),
            old(state).max_rewrite_steps as nat,
        ),
        r is ResourceOut && outcome is Continue ==> ids_ran_out(
            old(state).ordering,
            old(state).term_index@,
            old(state).active@,
            children@,
            old(state).passive.next_id,
            old(state).passive.entries@.len() as int,
            final(state).passive,
        ),
        final(state).passive.next_id >= old(state).passive.next_id,
        r is Continue || final(state).passive.next_id < u64::MAX ==> forall|j: int|
            0 <= j < children@.len() ==> child_handled(
                old(state).ordering,
                old(state).term_index@,
                old(state).active@,
                (#[trigger] children@[j])@,
                final(state).passive.entries@,
                old(state).passive.entries@.len() as int,
            ),
{
    let complete = enqueue_children(
        &state.ordering,
        &state.term_index,
        &state.active,
        &state.subsumption_index,
        &mut state.passive,
        children,
        &mut state.statistics,
        state.max_rewrite_steps,
        Ghost(state.input@),
    );
    if complete {
        outcome
    } else {
        StepOutcome::ResourceOut
    }
}

/// Runs the given-clause loop for at most `max_iterations` iterations:
/// one iteration after the other until one ends the search or the
/// iterations are used up.
///
/// The search ends with a refutation only if the clauses that it started
/// with have no model, and as saturated only when no passive clause is left.
pub fn saturate(state: &mut ProofState, max_iterations: u64) -> (r: SaturationResult)
    requires
        old(state).wf(),
    ensures
        final(state).wf(),
        final(state).input@ == old(state).input@,
        final(state).ordering == old(state).ordering,
        final(state).statistics.initial_clauses == old(state).statistics.initial_clauses,
        r is Refutation ==> unsatisfiable(final(state).input@),
        r is Saturated ==> final(state).passive.entries@.len() == 0,
        old(state).passive.entries@.len() == 0 && max_iterations > 0 ==> r is Saturated,
        searched(*old(state), *final(state), r, max_iterations as int),
{
    let mut done: u64 = 0;
    let ghost mut trace: Seq<ProofState> = seq![*state];
    while done < max_iterations
        invariant
            0 <= done <= max_iterations,
            state.wf(),
            state.input@ == old(state).input@,
            state.ordering == old(state).ordering,
            state.statistics.initial_clauses == old(state).statistics.initial_clauses,
            done == 0 ==> state.passive.entries@ == old(state).passive.entries@,
            done > 0 ==> old(state).passive.entries@.len() > 0,
            trace.len() == done + 1,
            trace[0] == *old(state),
            trace.last() == *state,
            forall|i: int|
                0 <= i < done ==> stepped(#[trigger] trace[i], trace[i + 1], StepOutcome::Continue),
        decreases max_iterations - done,
    {
        let ghost before = trace;
        let outcome = saturation_step(state);
        proof {
            trace = before.push(*state);
            assert(stepped(trace[done as int], trace[done as int + 1], outcome));
            assert forall|i: int| 0 <= i < done implies stepped(
                #[trigger] trace[i],
                trace[i + 1],
                StepOutcome::Continue,
            ) by {
                assert(trace[i] == before[i]);
                assert(trace[i + 1] == before[i + 1]);
            }
        }
        match outcome {
            StepOutcome::Refutation => {
                proof {
                    assert(ran(trace, SaturationResult::Refutation, max_iterations as int));
                }
                return SaturationResult::Refutation;
            },
            StepOutcome::Saturated => {
                proof {
                    assert(ran(trace, SaturationResult::Saturated, max_iterations as int));
                }
                return SaturationResult::Saturated;
            },
            StepOutcome::ResourceOut => {
                proof {
                    assert(ran(trace, SaturationResult::ResourceOut, max_iterations as int));
                }
                return SaturationResult::ResourceOut;
            },
            StepOutcome::Continue => {},
        }
        done += 1;
    }
    proof {
        assert(ran(trace, SaturationResult::ResourceOut, max_iterations as int));
    }
    SaturationResult::ResourceOut
}

/// The outcome of a search after an iteration, if the iteration ended it:
/// a refutation shows a theorem, saturation a counter-model, and a search
/// that ran out gave up. After any other iteration the search goes on.
pub fn after_step(outcome: StepOutcome) -> (p: Option<ProofResult>)
    ensures
        p == match outcome {
            StepOutcome::Refutation => Some(ProofResult::Theorem),
            StepOutcome::Saturated => Some(ProofResult::CounterSatisfiable),
            StepOutcome::ResourceOut => Some(ProofResult::GaveUp),
            StepOutcome::Continue => None::<ProofResult>,
        },
{
    match outcome {
        StepOutcome::Refutation => Some(ProofResult::Theorem),
        StepOutcome::Saturated => Some(ProofResult::CounterSatisfiable),
        StepOutcome::ResourceOut => Some(ProofResult::GaveUp),
        StepOutcome::Continue => None,
    }
}

/// The outcome that a search result stands for: a refutation shows a
/// theorem, saturation a counter-model, and a search that ran out gave up.
pub fn proof_result(r: SaturationResult) -> (p: ProofResult)
    ensures
        p == match r {
            SaturationResult::Refutation => ProofResult::Theorem,
            SaturationResult::Saturated => ProofResult::CounterSatisfiable,
            SaturationResult::ResourceOut => ProofResult::GaveUp,
        },
{
    match r {
        SaturationResult::Refutation => ProofResult::Theorem,
        SaturationResult::Saturated => ProofResult::CounterSatisfiable,
        SaturationResult::ResourceOut => ProofResult::GaveUp,
    }
}

} // verus!
