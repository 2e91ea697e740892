use serkr::clause::Clause;
use serkr::literal::Literal;
use serkr::ordering::precedence::Precedence;
use serkr::ordering::term_ordering::TermOrdering;
use serkr::ordering::weight::Weight;
use serkr::proof_search::steps::{forward_subsumed, forward_subsumed_indexed};
use serkr::simplification::feature_vector::{
    feature_vector, may_subsume, FeatureVector, SubsumptionIndex,
};
use serkr::simplification::rewriting::{
    normal_form, normal_form_step, rewrite_literals, TermIndex,
};
use serkr::pd_tree::{push_keys, Key, PDTree};
use serkr::simplification::simplify_reflect::{
    contradicted, is_reflected, matches_pair, simplify_reflect, turns_into,
};
use serkr::simplification::subsumption::subsumes;
use serkr::substitution::Substitution;
use serkr::term::Term;

fn x() -> Term {
    Term::new_variable(-1)
}

fn y() -> Term {
    Term::new_variable(-2)
}

fn a() -> Term {
    Term::new_function(1, Vec::new())
}

fn b() -> Term {
    Term::new_function(2, Vec::new())
}

fn f(s: Term, t: Term) -> Term {
    Term::new_function(3, vec![s, t])
}

fn g(s: Term) -> Term {
    Term::new_function(4, vec![s])
}

fn p(s: Term) -> Literal {
    Literal::new(false, Term::new_special_function(5, vec![s]), Term::new_truth())
}

fn not_p(s: Term) -> Literal {
    Literal::new(true, Term::new_special_function(5, vec![s]), Term::new_truth())
}

fn q(s: Term) -> Literal {
    Literal::new(false, Term::new_special_function(6, vec![s]), Term::new_truth())
}

fn clause(lits: Vec<Literal>) -> Clause {
    Clause::new_from_vec(lits)
}

fn orderings() -> Vec<TermOrdering> {
    vec![
        TermOrdering::LPO(Precedence::Arity),
        TermOrdering::KBO(Precedence::Arity, Weight::new(1), 1),
    ]
}

#[test]
fn a_more_general_clause_subsumes() {
    assert!(subsumes(&clause(vec![p(x())]), &clause(vec![p(a()), q(b())])));
    assert!(!subsumes(&clause(vec![p(a()), q(b())]), &clause(vec![p(x())])));
    assert!(!subsumes(&clause(vec![p(a())]), &clause(vec![p(x())])));
    assert!(subsumes(&clause(vec![p(x())]), &clause(vec![p(x())])));
}

#[test]
fn subsumption_needs_one_substitution_for_all_literals() {
    assert!(subsumes(&clause(vec![p(x()), q(x())]), &clause(vec![p(a()), q(a())])));
    assert!(!subsumes(&clause(vec![p(x()), q(x())]), &clause(vec![p(a()), q(b())])));
    assert!(subsumes(&clause(vec![p(x()), q(y())]), &clause(vec![q(b()), p(a())])));
}

#[test]
fn subsumption_counts_literals() {
    // an instance of two literals must be two literals
    assert!(!subsumes(&clause(vec![p(x()), p(y())]), &clause(vec![p(a())])));
    assert!(subsumes(&clause(vec![p(x()), p(y())]), &clause(vec![p(a()), p(b())])));
    assert!(subsumes(&clause(vec![p(x()), p(y())]), &clause(vec![p(a()), p(a())])));
}

#[test]
fn subsumption_looks_at_polarity() {
    assert!(!subsumes(&clause(vec![p(x())]), &clause(vec![not_p(a())])));
    assert!(subsumes(&clause(vec![not_p(x())]), &clause(vec![not_p(a())])));
}

#[test]
fn subsumption_reads_equations_both_ways() {
    let c = clause(vec![Literal::new(false, g(x()), x())]);
    let d = clause(vec![Literal::new(false, a(), g(a()))]);
    assert!(subsumes(&c, &d));
    // backtracking over the two readings
    let c2 = clause(vec![Literal::new(false, x(), y()), Literal::new(true, x(), a())]);
    let d2 = clause(vec![Literal::new(false, b(), a()), Literal::new(true, a(), a())]);
    assert!(subsumes(&c2, &d2));
}

#[test]
fn the_empty_clause_subsumes_every_clause() {
    assert!(subsumes(&Clause::new(), &clause(vec![p(a())])));
    assert!(subsumes(&Clause::new(), &Clause::new()));
    assert!(!subsumes(&clause(vec![p(x())]), &Clause::new()));
}

#[test]
fn generalizations_are_the_rules_that_match() {
    let mut index = TermIndex::new();
    index.insert(g(x()), x());
    index.insert(g(a()), b());
    index.insert(f(x(), x()), x());
    index.insert(g(g(x())), a());
    assert_eq!(index.size(), 4);
    let mut found = index.iter_generalizations(&g(g(b())));
    found.sort_by_key(|entry| entry.0);
    assert_eq!(found.len(), 2);
    assert_eq!(found[0].0, 0);
    assert_eq!(found[0].1.apply(&g(x())), g(g(b())));
    assert_eq!(found[1].0, 3);
    assert_eq!(found[1].1.apply(&x()), b());
    assert!(index.iter_generalizations(&f(a(), b())).is_empty());
    assert_eq!(index.iter_generalizations(&f(a(), a())).len(), 1);
}

#[test]
fn rewriting_reaches_the_normal_form() {
    for ord in orderings() {
        let mut index = TermIndex::new();
        index.insert(g(g(x())), x());
        index.insert(f(x(), a()), x());
        let mut t = f(g(g(g(g(b())))), a());
        assert!(normal_form(&ord, &index, &mut t, 100));
        assert_eq!(t, b());
        // in normal form nothing is rewritten
        assert!(!normal_form_step(&ord, &index, &mut t));
        assert_eq!(t, b());
    }
}

#[test]
fn rewriting_makes_one_step_at_a_time() {
    for ord in orderings() {
        let mut index = TermIndex::new();
        index.insert(g(g(x())), x());
        let mut t = f(g(g(a())), g(g(b())));
        assert!(normal_form_step(&ord, &index, &mut t));
        assert_eq!(t, f(a(), g(g(b()))));
        assert!(normal_form_step(&ord, &index, &mut t));
        assert_eq!(t, f(a(), b()));
        assert!(!normal_form_step(&ord, &index, &mut t));
    }
}

#[test]
fn rewriting_stops_at_the_step_limit() {
    for ord in orderings() {
        let mut index = TermIndex::new();
        index.insert(g(x()), x());
        let mut t = g(g(g(a())));
        assert!(!normal_form(&ord, &index, &mut t, 2));
        assert_eq!(t, g(a()));
        assert!(normal_form(&ord, &index, &mut t, 2));
        assert_eq!(t, a());
    }
}

#[test]
fn a_rule_is_used_only_where_the_instance_gets_smaller() {
    for ord in orderings() {
        // commutativity cannot be oriented: f(x, y) -> f(y, x)
        let mut index = TermIndex::new();
        index.insert(f(x(), y()), f(y(), x()));
        let mut t = f(a(), b());
        assert!(normal_form(&ord, &index, &mut t, 10));
        assert_eq!(t, f(a(), b()));
        // but f(b, a) is greater than f(a, b)
        let mut u = f(b(), a());
        assert!(normal_form(&ord, &index, &mut u, 10));
        assert_eq!(u, f(a(), b()));
    }
}

#[test]
fn the_literals_of_a_clause_are_rewritten() {
    for ord in orderings() {
        let mut index = TermIndex::new();
        index.insert(g(g(x())), x());
        let mut cl = clause(vec![
            Literal::new(true, g(g(a())), f(g(g(b())), a())),
            p(g(g(g(y())))),
        ]);
        cl.set_id(3);
        assert!(rewrite_literals(&ord, &index, &mut cl, 100));
        assert_eq!(cl.size(), 2);
        assert_eq!(cl.get_id(), 3);
        assert!(*cl.at(0) == Literal::new(true, a(), f(b(), a())));
        assert!(*cl.at(1) == p(g(y())));
        // no side of a literal has a subterm that a rule rewrites
        for l in cl.iter() {
            let mut lhs = l.get_lhs().clone();
            let mut rhs = l.get_rhs().clone();
            assert!(!normal_form_step(&ord, &index, &mut lhs));
            assert!(!normal_form_step(&ord, &index, &mut rhs));
        }
    }
}

#[test]
fn the_symbols_of_a_term_in_preorder() {
    let mut keys = vec![Key::Variable(-9)];
    push_keys(&f(g(x()), a()), &mut keys);
    assert_eq!(
        keys,
        vec![
            Key::Variable(-9),
            Key::Symbol(3, false, 2),
            Key::Symbol(4, false, 1),
            Key::Variable(-1),
            Key::Symbol(1, false, 0)
        ]
    );
    let mut atom = Vec::new();
    push_keys(&Term::new_special_function(5, vec![y()]), &mut atom);
    assert_eq!(atom, vec![Key::Symbol(5, true, 1), Key::Variable(-2)]);
}

fn keys_of(t: &Term) -> Vec<Key> {
    let mut keys = Vec::new();
    push_keys(t, &mut keys);
    keys
}

#[test]
fn a_discrimination_tree_finds_the_generalizations() {
    let patterns = [f(x(), y()), f(x(), x()), f(a(), x()), g(x()), f(g(x()), g(y())), x()];
    let mut tree = PDTree::new();
    for (i, p) in patterns.iter().enumerate() {
        tree = tree.insert(&keys_of(p), 0, i);
    }
    let query = |t: &Term| {
        let mut out = Vec::new();
        tree.collect(&vec![t], &Substitution::new(), &mut out);
        let mut found: Vec<usize> = Vec::new();
        for (i, sigma) in out.iter() {
            // the bindings send the pattern to the term
            assert_eq!(sigma.apply(&patterns[*i]), *t);
            found.push(*i);
        }
        found.sort();
        found
    };
    assert_eq!(query(&f(a(), a())), vec![0, 1, 2, 5]);
    assert_eq!(query(&f(a(), b())), vec![0, 2, 5]);
    assert_eq!(query(&f(b(), a())), vec![0, 5]);
    assert_eq!(query(&f(g(a()), g(a()))), vec![0, 1, 4, 5]);
    assert_eq!(query(&g(f(a(), a()))), vec![3, 5]);
    assert_eq!(query(&a()), vec![5]);
    // a variable of the term is matched by variables only
    assert_eq!(query(&Term::new_variable(-7)), vec![5]);
    // function and predicate symbols are different symbols
    assert_eq!(query(&Term::new_special_function(4, vec![a()])), vec![5]);
}

#[test]
fn rules_that_share_their_symbols_share_a_path() {
    let mut tree = PDTree::new();
    tree = tree.insert(&keys_of(&g(a())), 0, 0);
    tree = tree.insert(&keys_of(&g(b())), 0, 1);
    tree = tree.insert(&keys_of(&g(a())), 0, 2);
    assert_eq!(tree.edges.len(), 1);
    assert_eq!(tree.edges[0].1.edges.len(), 2);
    let mut out = Vec::new();
    tree.collect(&vec![&g(a())], &Substitution::new(), &mut out);
    let mut found: Vec<usize> = out.iter().map(|entry| entry.0).collect();
    found.sort();
    assert_eq!(found, vec![0, 2]);
}

#[test]
fn one_substitution_sends_a_pair_to_a_pair() {
    assert!(matches_pair(&x(), &g(x()), &a(), &g(a())));
    assert!(matches_pair(&f(x(), y()), &y(), &f(a(), b()), &b()));
    assert!(!matches_pair(&x(), &g(x()), &a(), &g(b())));
    assert!(!matches_pair(&x(), &x(), &a(), &b()));
    assert!(!matches_pair(&g(x()), &a(), &a(), &a()));
}

#[test]
fn an_equation_turns_a_term_into_another_at_one_place() {
    // at the root
    assert!(turns_into(&a(), &b(), &a(), &b()));
    // below the root, with an instance of the equation
    assert!(turns_into(&g(x()), &x(), &f(g(a()), b()), &f(a(), b())));
    assert!(turns_into(&a(), &b(), &g(g(a())), &g(g(b()))));
    // not from right to left
    assert!(!turns_into(&a(), &b(), &g(b()), &g(a())));
    // not at two places at once
    assert!(!turns_into(&a(), &b(), &f(a(), a()), &f(b(), b())));
    // not a term into itself
    assert!(!turns_into(&a(), &a(), &g(a()), &g(a())));
    // not where the heads differ
    assert!(!turns_into(&a(), &b(), &g(a()), &f(b(), b())));
}

#[test]
fn a_unit_equation_contradicts_a_disequation() {
    let unit = clause(vec![Literal::new(false, a(), b())]);
    assert!(contradicted(&unit, &Literal::new(true, g(a()), g(b()))));
    assert!(contradicted(&unit, &Literal::new(true, g(b()), g(a()))));
    assert!(!contradicted(&unit, &Literal::new(false, g(a()), g(b()))));
    assert!(!contradicted(&unit, &Literal::new(true, g(a()), g(a()))));
    assert!(!contradicted(&unit, &Literal::new(true, g(a()), a())));
    // a clause with two literals contradicts nothing
    let two = clause(vec![Literal::new(false, a(), b()), p(a())]);
    assert!(!contradicted(&two, &Literal::new(true, g(a()), g(b()))));
}

#[test]
fn a_unit_disequation_contradicts_its_instances() {
    let unit = clause(vec![Literal::new(true, g(x()), x())]);
    assert!(contradicted(&unit, &Literal::new(false, g(a()), a())));
    assert!(contradicted(&unit, &Literal::new(false, a(), g(a()))));
    assert!(!contradicted(&unit, &Literal::new(false, g(a()), b())));
    assert!(!contradicted(&unit, &Literal::new(true, g(a()), a())));
    // an atom and its negation
    assert!(contradicted(&clause(vec![not_p(x())]), &p(a())));
    assert!(contradicted(&clause(vec![p(x())]), &not_p(g(a()))));
    assert!(!contradicted(&clause(vec![p(a())]), &not_p(b())));
}

#[test]
fn simplify_reflect_deletes_the_contradicted_literals() {
    let active = vec![
        clause(vec![Literal::new(false, a(), b())]),
        clause(vec![not_p(x())]),
        clause(vec![q(a()), q(b())]),
    ];
    assert!(is_reflected(&active, &p(b())));
    assert!(!is_reflected(&active, &q(b())));
    assert!(!is_reflected(&Vec::new(), &p(b())));
    let mut cl = clause(vec![
        q(a()),
        Literal::new(true, f(a(), x()), f(b(), x())),
        p(g(y())),
        Literal::new(true, a(), g(b())),
    ]);
    cl.set_id(7);
    simplify_reflect(&active, &mut cl);
    assert_eq!(cl.size(), 2);
    assert_eq!(cl.get_id(), 7);
    assert!(*cl.at(0) == q(a()));
    assert!(*cl.at(1) == Literal::new(true, a(), g(b())));
    let mut empty = clause(Vec::new());
    simplify_reflect(&active, &mut empty);
    assert!(empty.is_empty());
}

#[test]
fn the_features_of_a_clause_count_its_literals_by_polarity() {
    let cl = clause(vec![p(a()), not_p(b()), q(x()), Literal::new(true, a(), b())]);
    assert_eq!(feature_vector(&cl), FeatureVector { positive: 2, negative: 2 });
    assert_eq!(feature_vector(&clause(Vec::new())), FeatureVector { positive: 0, negative: 0 });
    let small = FeatureVector { positive: 1, negative: 0 };
    let large = FeatureVector { positive: 2, negative: 2 };
    let other = FeatureVector { positive: 0, negative: 3 };
    assert!(may_subsume(&small, &large));
    assert!(may_subsume(&small, &small));
    assert!(!may_subsume(&large, &small));
    assert!(!may_subsume(&small, &other));
    assert!(!may_subsume(&other, &large));
}

#[test]
fn a_clause_that_subsumes_has_no_larger_features() {
    let pairs = vec![
        (clause(vec![p(x())]), clause(vec![p(a()), q(b())])),
        (clause(vec![p(x()), not_p(y())]), clause(vec![not_p(b()), q(a()), p(a())])),
        (clause(Vec::new()), clause(vec![p(a())])),
    ];
    for (c, d) in pairs.iter() {
        assert!(subsumes(c, d));
        assert!(may_subsume(&feature_vector(c), &feature_vector(d)));
    }
}

#[test]
fn the_index_gives_the_answers_of_the_search_without_it() {
    let active = vec![
        clause(vec![p(x()), q(x())]),
        clause(vec![not_p(a())]),
        clause(vec![q(g(y()))]),
    ];
    let mut index = SubsumptionIndex::new();
    for cl in active.iter() {
        index.insert(cl);
    }
    assert_eq!(index.size(), 3);
    assert!(index.may_subsume(1, &FeatureVector { positive: 1, negative: 1 }));
    assert!(!index.may_subsume(0, &FeatureVector { positive: 1, negative: 1 }));
    assert!(index.may_be_subsumed(0, &FeatureVector { positive: 1, negative: 0 }));
    assert!(!index.may_be_subsumed(1, &FeatureVector { positive: 1, negative: 0 }));
    let queries = vec![
        clause(vec![p(a()), q(a())]),
        clause(vec![q(g(a())), not_p(b())]),
        clause(vec![not_p(a()), p(b())]),
        clause(vec![p(b())]),
        clause(vec![not_p(b())]),
        clause(Vec::new()),
    ];
    let expected = [true, true, true, false, false, false];
    for (query, want) in queries.iter().zip(expected.iter()) {
        assert_eq!(forward_subsumed(&active, query), *want);
        assert_eq!(forward_subsumed_indexed(&active, &index, query), *want);
    }
}
