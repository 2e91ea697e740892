use serkr::binary_resolution::{
    add_resolvents, all_positive, pick_clause, resolution_loop, resolve, resolve_clauses, Outcome,
};
use serkr::clause::Clause;
use serkr::factoring::factor;
use serkr::literal::Literal;
use serkr::term::Term;

fn x() -> Term {
    Term::new_variable(-1)
}

fn y() -> Term {
    Term::new_variable(-2)
}

fn a() -> Term {
    Term::new_function(1, Vec::new())
}

fn b() -> Term {
    Term::new_function(2, Vec::new())
}

fn p(t: Term) -> Literal {
    Literal::new(false, Term::new_special_function(5, vec![t]), Term::new_truth())
}

fn not_p(t: Term) -> Literal {
    Literal::new(true, Term::new_special_function(5, vec![t]), Term::new_truth())
}

fn q(t: Term) -> Literal {
    Literal::new(false, Term::new_special_function(6, vec![t]), Term::new_truth())
}

fn not_q(t: Term) -> Literal {
    Literal::new(true, Term::new_special_function(6, vec![t]), Term::new_truth())
}

fn clause(lits: Vec<Literal>) -> Clause {
    Clause::new_from_vec(lits)
}

#[test]
fn a_resolvent_holds_the_other_literals() {
    let cl1 = clause(vec![p(x()), q(x())]);
    let cl2 = clause(vec![not_p(a()), q(b())]);
    let mut unused = Vec::new();
    add_resolvents(&cl1, &cl2, &p(x()), &Vec::new(), &mut unused);
    assert_eq!(unused.len(), 1);
    assert_eq!(unused[0].size(), 2);
    assert!(*unused[0].at(0) == q(a()));
    assert!(*unused[0].at(1) == q(b()));
    // nothing is complementary to q(x)
    add_resolvents(&cl1, &cl2, &q(x()), &Vec::new(), &mut unused);
    assert_eq!(unused.len(), 1);
}

#[test]
fn a_resolvent_has_no_literal_twice() {
    let cl1 = clause(vec![p(x()), q(a())]);
    let cl2 = clause(vec![not_p(b()), q(a())]);
    let mut unused = Vec::new();
    add_resolvents(&cl1, &cl2, &p(x()), &Vec::new(), &mut unused);
    assert_eq!(unused.len(), 1);
    assert_eq!(unused[0].size(), 1);
    assert!(*unused[0].at(0) == q(a()));
}

#[test]
fn tautologies_and_subsumed_resolvents_are_left_out() {
    // the resolvent q(a) or not q(a) is a tautology
    let cl1 = clause(vec![p(x()), q(x())]);
    let cl2 = clause(vec![not_p(a()), not_q(a())]);
    let mut unused = Vec::new();
    add_resolvents(&cl1, &cl2, &p(x()), &Vec::new(), &mut unused);
    assert!(unused.is_empty());
    // a used clause subsumes the resolvent q(a) or q(b)
    let cl2 = clause(vec![not_p(a()), q(b())]);
    let used = vec![clause(vec![q(y())])];
    add_resolvents(&cl1, &cl2, &p(x()), &used, &mut unused);
    assert!(unused.is_empty());
    // an unused clause subsumes it
    let mut unused = vec![clause(vec![q(b())])];
    add_resolvents(&cl1, &cl2, &p(x()), &Vec::new(), &mut unused);
    assert_eq!(unused.len(), 1);
}

#[test]
fn only_a_positive_clause_is_resolved_with() {
    assert!(all_positive(&clause(vec![p(a()), q(b())])));
    assert!(!all_positive(&clause(vec![p(a()), not_q(b())])));
    assert!(all_positive(&Clause::new()));
    let mixed1 = clause(vec![p(x()), not_q(x())]);
    let mixed2 = clause(vec![not_p(a()), not_q(b())]);
    let mut unused = Vec::new();
    resolve_clauses(&mixed1, &mixed2, &Vec::new(), &mut unused);
    assert!(unused.is_empty());
    let positive = clause(vec![p(x()), q(x())]);
    resolve_clauses(&positive, &mixed2, &Vec::new(), &mut unused);
    // one resolvent on p and one on q
    assert_eq!(unused.len(), 2);
    assert!(*unused[0].at(0) == q(a()));
    assert!(*unused[1].at(0) == p(b()));
}

#[test]
fn the_first_of_the_shortest_clauses_is_picked() {
    let mut unused = vec![
        clause(vec![p(a()), q(a())]),
        clause(vec![p(b())]),
        clause(vec![q(b())]),
        clause(vec![p(a()), q(b())]),
    ];
    let best = pick_clause(&mut unused);
    assert!(best == clause(vec![p(b())]));
    // the last clause took its place
    assert_eq!(unused.len(), 3);
    assert!(unused[1] == clause(vec![p(a()), q(b())]));
    assert!(unused[2] == clause(vec![q(b())]));
    let mut one = vec![Clause::new()];
    assert!(pick_clause(&mut one).is_empty());
    assert!(one.is_empty());
}

#[test]
fn the_resolution_loop_finds_the_empty_clause() {
    // p(a), not p(x) or q(x), not q(a)
    let clauses = vec![
        clause(vec![p(a())]),
        clause(vec![not_p(x()), q(x())]),
        clause(vec![not_q(a())]),
    ];
    assert_eq!(resolution_loop(Vec::new(), clauses, -1, 1000), Ok(true));
}

#[test]
fn the_resolution_loop_ends_without_a_proof() {
    let clauses = vec![clause(vec![p(a())]), clause(vec![not_p(b())])];
    assert_eq!(resolution_loop(Vec::new(), clauses, 0, 1000), Err("No proof found."));
    assert_eq!(resolution_loop(Vec::new(), Vec::new(), 0, 1000), Err("No proof found."));
    // and is given up where the rounds run out
    let clauses = vec![clause(vec![p(a())]), clause(vec![not_p(b())])];
    assert_eq!(resolution_loop(Vec::new(), clauses, 0, 1), Err("The search was given up."));
    // or the variables
    let clauses = vec![clause(vec![p(x())]), clause(vec![not_q(a())])];
    assert_eq!(resolution_loop(Vec::new(), clauses, i64::MIN, 1000), Err("The search was given up."));
}

#[test]
fn a_factor_makes_two_literals_one() {
    let cl = clause(vec![p(x()), q(a()), p(b())]);
    let mut unused = vec![Clause::new()];
    factor(cl, &mut unused);
    // p(x) and p(b) become one; the last literal took the place of the other
    assert_eq!(unused.len(), 2);
    assert!(unused[0].is_empty());
    assert!(unused[1] == clause(vec![p(b()), q(a())]));
    // literals of different polarity or with different symbols give no factor
    let mut unused = Vec::new();
    factor(clause(vec![p(x()), not_p(a()), q(x())]), &mut unused);
    assert!(unused.is_empty());
    // each pair gives a factor
    factor(clause(vec![p(x()), p(y()), p(a())]), &mut unused);
    assert_eq!(unused.len(), 3);
}

#[test]
fn the_resolution_loop_needs_factors() {
    // p(x) or p(y), and not p(a) or not p(b)
    let clauses = vec![
        clause(vec![p(x()), p(y())]),
        clause(vec![not_p(a()), not_p(b())]),
    ];
    assert_eq!(resolution_loop(Vec::new(), clauses, -2, 1000), Ok(true));
}

#[test]
fn a_search_by_resolution_says_how_it_ended() {
    let clauses = || vec![clause(vec![p(a())]), clause(vec![not_p(x())])];
    assert_eq!(resolve(Vec::new(), clauses(), -1, 10), Outcome::Refuted);
    assert_eq!(resolve(Vec::new(), clauses(), -1, 1), Outcome::GivenUp);
    assert_eq!(resolve(clauses(), Vec::new(), -1, 10), Outcome::Exhausted);
    assert_eq!(resolve(Vec::new(), vec![clause(vec![p(a())])], -1, 10), Outcome::Exhausted);
}
