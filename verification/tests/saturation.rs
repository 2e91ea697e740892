use serkr::clause::Clause;
use serkr::literal::Literal;
use serkr::ordering::precedence::Precedence;
use serkr::ordering::term_ordering::TermOrdering;
use serkr::ordering::weight::Weight;
use serkr::cnf::ast::Formula;
use serkr::cnf::renaming_info::RenamingInfo;
use serkr::proof_result::ProofResult;
use serkr::proof_search::saturation::{
    after_step, saturate, saturation_step, ProofState, SaturationResult, StepOutcome,
};
use serkr::proof_search::steps::{forward_subsumed, generate, orient_rule, simplify_clause};
use serkr::proof_statistics::{count_up, ProofStatistics};
use serkr::resolution::{prove_formula, refute};
use serkr::simplification::rewriting::TermIndex;
use serkr::term::Term;

fn atom(id: i64, args: Vec<Term>) -> Term {
    Term::new_special_function(id, args)
}

fn positive(t: Term) -> Literal {
    Literal::new(false, t, Term::new_truth())
}

fn negative(t: Term) -> Literal {
    Literal::new(true, t, Term::new_truth())
}

fn orderings() -> Vec<TermOrdering> {
    vec![
        TermOrdering::LPO(Precedence::Arity),
        TermOrdering::KBO(Precedence::Arity, Weight::new(1), 1),
    ]
}

#[test]
fn unit_conflict_is_refuted() {
    for ordering in orderings() {
        let a = Term::new_function(1, Vec::new());
        let x = Term::new_variable(-1);
        let c1 = Clause::new_from_vec(vec![positive(atom(1, vec![a]))]);
        let c2 = Clause::new_from_vec(vec![negative(atom(1, vec![x]))]);
        let mut state = ProofState::new(ordering, vec![c1, c2], 5, 1000);
        assert_eq!(saturate(&mut state, 1000), SaturationResult::Refutation);
    }
}

#[test]
fn satisfiable_units_saturate() {
    for ordering in orderings() {
        let a = Term::new_function(1, Vec::new());
        let b = Term::new_function(2, Vec::new());
        let c1 = Clause::new_from_vec(vec![positive(atom(1, vec![a]))]);
        let c2 = Clause::new_from_vec(vec![negative(atom(1, vec![b]))]);
        let mut state = ProofState::new(ordering, vec![c1, c2], 5, 1000);
        assert_eq!(saturate(&mut state, 1000), SaturationResult::Saturated);
        let stats = state.get_statistics();
        assert_eq!(stats.get_initial_clauses(), 2);
        assert!(stats.get_initial_clauses() + stats.get_inferred_count() >= stats.get_iteration_count());
        assert!(stats.get_iteration_count() >= stats.get_nonredundant_analyzed_count());
    }
}

#[test]
fn factoring_is_needed() {
    // P(x) | P(y) and ~P(u) | ~P(v) have no model.
    for ordering in orderings() {
        let c1 = Clause::new_from_vec(vec![
            positive(atom(1, vec![Term::new_variable(-1)])),
            positive(atom(1, vec![Term::new_variable(-2)])),
        ]);
        let c2 = Clause::new_from_vec(vec![
            negative(atom(1, vec![Term::new_variable(-1)])),
            negative(atom(1, vec![Term::new_variable(-2)])),
        ]);
        let mut state = ProofState::new(ordering, vec![c1, c2], 5, 1000);
        assert_eq!(saturate(&mut state, 1000), SaturationResult::Refutation);
    }
}

#[test]
fn group_theory_commutativity() {
    // e*x = x, i(x)*x = e, (x*y)*z = x*(y*z), x*x = e, and a*b != b*a.
    for ordering in orderings() {
        let e = || Term::new_function(1, Vec::new());
        let mul = |s: Term, t: Term| Term::new_function(2, vec![s, t]);
        let inv = |s: Term| Term::new_function(3, vec![s]);
        let a = || Term::new_function(4, Vec::new());
        let b = || Term::new_function(5, Vec::new());
        let x = || Term::new_variable(-1);
        let y = || Term::new_variable(-2);
        let z = || Term::new_variable(-3);
        let clauses = vec![
            Clause::new_from_vec(vec![Literal::new(false, mul(e(), x()), x())]),
            Clause::new_from_vec(vec![Literal::new(false, mul(inv(x()), x()), e())]),
            Clause::new_from_vec(vec![Literal::new(
                false,
                mul(mul(x(), y()), z()),
                mul(x(), mul(y(), z())),
            )]),
            Clause::new_from_vec(vec![Literal::new(false, mul(x(), x()), e())]),
            Clause::new_from_vec(vec![Literal::new(true, mul(a(), b()), mul(b(), a()))]),
        ];
        let mut state = ProofState::new(ordering, clauses, 5, 1000);
        assert_eq!(saturate(&mut state, 2000), SaturationResult::Refutation);
    }
}

#[test]
fn empty_input_is_saturated() {
    let mut state = ProofState::new(TermOrdering::LPO(Precedence::Arity), Vec::new(), 5, 10);
    assert_eq!(saturate(&mut state, 1), SaturationResult::Saturated);
    assert_eq!(state.get_statistics().get_iteration_count(), 0);
}

#[test]
fn iteration_limit_gives_up() {
    let a = Term::new_function(1, Vec::new());
    let c1 = Clause::new_from_vec(vec![positive(atom(1, vec![a]))]);
    let mut state = ProofState::new(TermOrdering::LPO(Precedence::Arity), vec![c1], 5, 10);
    assert_eq!(saturate(&mut state, 0), SaturationResult::ResourceOut);
    assert_eq!(state.passive_count(), 1);
}

#[test]
fn one_step_at_a_time() {
    let a = Term::new_function(1, Vec::new());
    let x = Term::new_variable(-1);
    let c1 = Clause::new_from_vec(vec![positive(atom(1, vec![a]))]);
    let c2 = Clause::new_from_vec(vec![negative(atom(1, vec![x]))]);
    let mut state = ProofState::new(TermOrdering::LPO(Precedence::Arity), vec![c1, c2], 5, 100);
    assert_eq!(state.passive_count(), 2);
    assert_eq!(state.active_count(), 0);
    assert_eq!(saturation_step(&mut state), StepOutcome::Continue);
    assert_eq!(state.active_count(), 1);
    assert_eq!(state.passive_count(), 1);
    // the active unit clause contradicts the only literal of the other clause
    assert_eq!(saturation_step(&mut state), StepOutcome::Refutation);
    assert_eq!(state.active_count(), 1);
    assert_eq!(state.passive_count(), 0);
    let stats = state.get_statistics();
    assert_eq!(stats.get_iteration_count(), 2);
    assert_eq!(stats.get_nonredundant_analyzed_count(), 1);
    assert_eq!(stats.get_inferred_count(), 0);
    assert_eq!(stats.get_nontrivial_inferred_count(), 0);
}

#[test]
fn unit_clauses_that_contradict_nothing_saturate() {
    let a = Term::new_function(1, Vec::new());
    let b = Term::new_function(2, Vec::new());
    // P(a) and not P(b): neither contradicts the other
    let c1 = Clause::new_from_vec(vec![positive(atom(1, vec![a]))]);
    let c2 = Clause::new_from_vec(vec![negative(atom(1, vec![b]))]);
    let mut state = ProofState::new(TermOrdering::LPO(Precedence::Arity), vec![c1, c2], 5, 100);
    assert_eq!(saturation_step(&mut state), StepOutcome::Continue);
    assert_eq!(saturation_step(&mut state), StepOutcome::Continue);
    assert_eq!(state.active_count(), 2);
    // nothing follows from the two
    assert_eq!(saturation_step(&mut state), StepOutcome::Saturated);
    assert_eq!(state.get_statistics().get_iteration_count(), 2);
    assert_eq!(state.get_statistics().get_nonredundant_analyzed_count(), 2);
}

#[test]
fn without_passive_clauses_a_step_changes_nothing() {
    let mut state = ProofState::new(TermOrdering::LPO(Precedence::Arity), Vec::new(), 5, 100);
    let before = state.get_statistics();
    assert_eq!(saturation_step(&mut state), StepOutcome::Saturated);
    assert_eq!(state.get_statistics(), before);
    assert_eq!(state.active_count(), 0);
}

#[test]
fn tautologies_and_subsumed_clauses_are_dropped() {
    let a = || Term::new_function(1, Vec::new());
    let x = || Term::new_variable(-1);
    let c1 = Clause::new_from_vec(vec![
        positive(atom(1, vec![x()])),
        positive(atom(2, vec![x()])),
    ]);
    let c2 = Clause::new_from_vec(vec![positive(atom(1, vec![a()])), negative(atom(1, vec![a()]))]);
    let c3 = Clause::new_from_vec(vec![
        positive(atom(1, vec![a()])),
        positive(atom(2, vec![a()])),
        positive(atom(3, vec![a()])),
    ]);
    let mut state = ProofState::new(TermOrdering::LPO(Precedence::Arity), vec![c1, c2, c3], 5, 100);
    assert_eq!(saturate(&mut state, 100), SaturationResult::Saturated);
    let stats = state.get_statistics();
    assert_eq!(stats.get_iteration_count(), 3);
    assert_eq!(stats.get_trivial_count(), 1);
    assert_eq!(stats.get_forward_subsumed_count(), 1);
    assert_eq!(stats.get_nonredundant_analyzed_count(), 1);
    assert_eq!(state.active_count(), 1);
}

#[test]
fn a_given_clause_removes_the_active_clauses_that_it_subsumes() {
    let a = || Term::new_function(1, Vec::new());
    let x = || Term::new_variable(-1);
    // the larger clause is analyzed after the unit only by age, so it comes first here
    let c1 = Clause::new_from_vec(vec![
        negative(atom(1, vec![a()])),
        positive(atom(2, vec![a()])),
    ]);
    let c2 = Clause::new_from_vec(vec![negative(atom(1, vec![x()]))]);
    let mut state = ProofState::new(TermOrdering::LPO(Precedence::Arity), vec![c1, c2], 0, 100);
    assert_eq!(saturate(&mut state, 100), SaturationResult::Saturated);
    assert_eq!(state.get_statistics().get_backward_subsumed_count(), 1);
    assert_eq!(state.active_count(), 1);
}

#[test]
fn the_search_stops_when_the_variables_run_out() {
    let x = Term::new_variable(-1);
    let c1 = Clause::new_from_vec(vec![positive(atom(1, vec![x]))]);
    let mut state = ProofState::new(TermOrdering::LPO(Precedence::Arity), vec![c1], 5, 100);
    state.var_cnt = i64::MIN;
    assert_eq!(saturation_step(&mut state), StepOutcome::ResourceOut);
    assert_eq!(saturate(&mut state, 10), SaturationResult::Saturated);
}

#[test]
fn refuting_clauses() {
    let a = || Term::new_function(1, Vec::new());
    let p = Clause::new_from_vec(vec![positive(atom(1, vec![a()]))]);
    let not_p = Clause::new_from_vec(vec![negative(atom(1, vec![a()]))]);
    let tautology = Clause::new_from_vec(vec![
        positive(atom(2, vec![a()])),
        negative(atom(2, vec![a()])),
    ]);
    for ordering in orderings() {
        assert_eq!(
            refute(vec![p.clone(), tautology.clone(), not_p.clone()], ordering, 100),
            SaturationResult::Refutation
        );
        assert_eq!(refute(vec![p.clone(), tautology.clone()], ordering, 100), SaturationResult::Saturated);
        assert_eq!(refute(Vec::new(), ordering, 1), SaturationResult::Saturated);
        assert_eq!(refute(vec![p.clone(), not_p.clone()], ordering, 0), SaturationResult::ResourceOut);
        assert_eq!(refute(vec![Clause::new()], ordering, 5), SaturationResult::Refutation);
    }
}

#[test]
fn proving_formulae() {
    let p = || Formula::Predicate(1, Vec::new());
    let excluded_middle = Formula::Or(Box::new(p()), Box::new(Formula::Not(Box::new(p()))));
    let ri = RenamingInfo::new(0, 1);
    for ordering in orderings() {
        assert_eq!(prove_formula(excluded_middle.clone(), ri, ordering, 100), Ok(true));
        assert_eq!(prove_formula(p(), ri, ordering, 100), Err("No proof found."));
        assert_eq!(
            prove_formula(excluded_middle.clone(), ri, ordering, 0),
            Err("The search was given up.")
        );
        // the negation of a truth value is a truth value
        assert_eq!(prove_formula(Formula::True, ri, ordering, 100), Ok(true));
        assert_eq!(prove_formula(Formula::False, ri, ordering, 100), Ok(false));
        let quantified = Formula::Forall(-1, Box::new(p()));
        assert_eq!(
            prove_formula(quantified, RenamingInfo::new(0, i64::MAX), ordering, 100),
            Err("The names ran out.")
        );
    }
}

#[test]
fn the_parts_of_a_step() {
    let a = || Term::new_function(1, Vec::new());
    let g = |t: Term| Term::new_function(4, vec![t]);
    let x = || Term::new_variable(-1);
    for ordering in orderings() {
        // the rule of a unit equation goes from the greater side to the smaller
        let unit = Clause::new_from_vec(vec![Literal::new(false, a(), g(a()))]);
        assert_eq!(orient_rule(&ordering, &unit), Some((g(a()), a())));
        let unordered = Clause::new_from_vec(vec![Literal::new(false, x(), Term::new_variable(-2))]);
        assert_eq!(orient_rule(&ordering, &unordered), None);
        assert_eq!(orient_rule(&ordering, &Clause::new_from_vec(vec![negative(a())])), None);

        let mut index = TermIndex::new();
        index.insert(g(a()), a());
        let mut cl = Clause::new_from_vec(vec![
            Literal::new(false, g(g(a())), x()),
            Literal::new(true, a(), g(a())),
            Literal::new(false, x(), a()),
        ]);
        simplify_clause(&ordering, &index, &Vec::new(), &mut cl, 100);
        // both sides rewritten, a != a deleted, and x = a only once
        assert_eq!(cl.size(), 1);
        assert!(*cl.at(0) == Literal::new(false, a(), x()));

        // a literal that an active unit clause contradicts is deleted
        let units = vec![Clause::new_from_vec(vec![negative(atom(1, vec![x()]))])];
        let mut cl = Clause::new_from_vec(vec![
            positive(atom(1, vec![g(a())])),
            positive(atom(2, vec![a()])),
        ]);
        simplify_clause(&ordering, &index, &units, &mut cl, 100);
        assert_eq!(cl.size(), 1);
        assert!(*cl.at(0) == positive(atom(2, vec![a()])));

        let active = vec![Clause::new_from_vec(vec![positive(atom(1, vec![x()]))])];
        assert!(forward_subsumed(&active, &Clause::new_from_vec(vec![positive(atom(1, vec![a()]))])));
        assert!(!forward_subsumed(&active, &Clause::new_from_vec(vec![negative(atom(1, vec![a()]))])));
        assert!(!forward_subsumed(&Vec::new(), &Clause::new()));

        let given = Clause::new_from_vec(vec![negative(atom(1, vec![a()]))]);
        let copy = given.clone();
        let mut children = Vec::new();
        let mut statistics = ProofStatistics::new();
        generate(&ordering, &given, &copy, &active, &mut children, &mut statistics);
        assert_eq!(children.len(), 1);
        let t = Term::new_truth;
        assert!(*children[0].at(0) == Literal::new(true, t(), t()));
        assert_eq!(statistics.get_inferred_count(), 1);
        assert_eq!(statistics.get_superposition_inferred_count(), 1);
        assert_eq!(statistics.get_equality_factoring_inferred_count(), 0);
        assert_eq!(statistics.get_equality_resolution_inferred_count(), 0);
    }
}

#[test]
fn counters_stay_at_the_largest_number() {
    assert_eq!(count_up(3, 4), 7);
    assert_eq!(count_up(u64::MAX - 1, 1), u64::MAX);
    assert_eq!(count_up(u64::MAX - 1, 5), u64::MAX);
    assert_eq!(count_up(u64::MAX, usize::MAX), u64::MAX);
    let zero = ProofStatistics::new();
    assert_eq!(zero.get_initial_clauses(), 0);
    assert_eq!(zero.get_backward_subsumed_count(), 0);
    assert_eq!(zero.get_trivial_count(), 0);
}

#[test]
fn an_iteration_ends_the_search_or_not() {
    assert_eq!(after_step(StepOutcome::Refutation), Some(ProofResult::Theorem));
    assert_eq!(after_step(StepOutcome::Saturated), Some(ProofResult::CounterSatisfiable));
    assert_eq!(after_step(StepOutcome::ResourceOut), Some(ProofResult::GaveUp));
    assert_eq!(after_step(StepOutcome::Continue), None);
}
