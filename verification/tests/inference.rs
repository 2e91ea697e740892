use serkr::clause::Clause;
use serkr::inference::equality_factoring::equality_factoring;
use serkr::inference::equality_resolution::equality_resolution;
use serkr::inference::maximality::{literal_maximal_in, literal_strictly_maximal_in};
use serkr::inference::superposition::superposition;
use serkr::literal::Literal;
use serkr::ordering::precedence::Precedence;
use serkr::ordering::term_ordering::TermOrdering;
use serkr::ordering::weight::Weight;
use serkr::term::Term;

fn x() -> Term {
    Term::new_variable(-1)
}

fn y() -> Term {
    Term::new_variable(-2)
}

fn a() -> Term {
    Term::new_function(1, Vec::new())
}

fn b() -> Term {
    Term::new_function(2, Vec::new())
}

fn g(s: Term) -> Term {
    Term::new_function(4, vec![s])
}

fn p(s: Term) -> Literal {
    Literal::new(false, Term::new_special_function(5, vec![s]), Term::new_truth())
}

fn not_p(s: Term) -> Literal {
    Literal::new(true, Term::new_special_function(5, vec![s]), Term::new_truth())
}

fn clause(lits: Vec<Literal>) -> Clause {
    Clause::new_from_vec(lits)
}

fn orderings() -> Vec<TermOrdering> {
    vec![
        TermOrdering::LPO(Precedence::Arity),
        TermOrdering::KBO(Precedence::Arity, Weight::new(1), 1),
    ]
}

fn has(generated: &[Clause], lits: Vec<Literal>) -> bool {
    generated.iter().any(|c| {
        c.size() == lits.len() && lits.iter().all(|l| c.iter().any(|k| k == l))
    })
}

#[test]
fn maximal_literals() {
    for ord in orderings() {
        let cl = clause(vec![p(a()), p(g(a()))]);
        assert!(literal_maximal_in(&ord, &cl, &p(g(a()))));
        assert!(!literal_maximal_in(&ord, &cl, &p(a())));
        assert!(!literal_strictly_maximal_in(&ord, &cl, &p(g(a()))));
        assert!(literal_strictly_maximal_in(&ord, &cl, &p(g(g(a())))));
        assert!(literal_maximal_in(&ord, &Clause::new(), &p(a())));
    }
}

#[test]
fn equality_resolution_deletes_a_unifiable_disequation() {
    for ord in orderings() {
        let cl = clause(vec![Literal::new(true, x(), a()), p(x())]);
        let mut generated = vec![clause(vec![p(b())])];
        let count = equality_resolution(&ord, &cl, &mut generated);
        // x != a is not the greatest literal after x is replaced by a: P(a) is greater
        assert_eq!(count, 0);
        assert_eq!(generated.len(), 1);

        let cl2 = clause(vec![Literal::new(true, g(x()), g(a())), Literal::new(false, x(), b())]);
        let count2 = equality_resolution(&ord, &cl2, &mut generated);
        assert_eq!(count2, 1);
        assert_eq!(generated.len(), 2);
        assert!(has(&generated[1..], vec![Literal::new(false, a(), b())]));
    }
}

#[test]
fn equality_resolution_gives_the_empty_clause() {
    for ord in orderings() {
        let cl = clause(vec![Literal::new(true, x(), a())]);
        let mut generated = Vec::new();
        assert_eq!(equality_resolution(&ord, &cl, &mut generated), 1);
        assert!(generated[0].is_empty());
        // no unifier: nothing is inferred
        let cl2 = clause(vec![Literal::new(true, a(), b()), Literal::new(true, x(), g(x()))]);
        assert_eq!(equality_resolution(&ord, &cl2, &mut generated), 0);
        // an equation is not resolved
        let cl3 = clause(vec![Literal::new(false, a(), a())]);
        assert_eq!(equality_resolution(&ord, &cl3, &mut generated), 0);
        assert_eq!(generated.len(), 1);
    }
}

#[test]
fn equality_factoring_merges_two_equations() {
    for ord in orderings() {
        // P(x) | P(a) gives P(a) | T != T
        let cl = clause(vec![p(x()), p(a())]);
        let mut generated = Vec::new();
        let count = equality_factoring(&ord, &cl, &mut generated);
        assert_eq!(count, generated.len());
        assert!(count >= 1);
        let t = Term::new_truth();
        assert!(has(&generated, vec![p(a()), Literal::new(true, t.clone(), t)]));
        // a single literal has nothing to be factored with
        let mut nothing = Vec::new();
        assert_eq!(equality_factoring(&ord, &clause(vec![p(x())]), &mut nothing), 0);
        // disequations are not factored
        assert_eq!(
            equality_factoring(&ord, &clause(vec![not_p(x()), not_p(a())]), &mut nothing),
            0
        );
    }
}

#[test]
fn superposition_rewrites_with_an_equation() {
    for ord in orderings() {
        // g(x) = x into P(g(a)): P(a)
        let c1 = clause(vec![Literal::new(false, g(x()), x())]);
        let c2 = clause(vec![p(g(a()))]);
        let mut generated = Vec::new();
        let count = superposition(&ord, &c1, &c2, &mut generated);
        assert_eq!(count, generated.len());
        assert!(has(&generated, vec![p(a())]));
        // the smaller side is not superposed from: P(g(g(a))) does not come out
        assert!(!has(&generated, vec![p(g(g(a())))]));
    }
}

#[test]
fn superposition_resolves_atoms() {
    for ord in orderings() {
        // P(x) = T into P(a) != T: T != T
        let c1 = clause(vec![p(x())]);
        let c2 = clause(vec![not_p(a())]);
        let mut generated = Vec::new();
        let count = superposition(&ord, &c1, &c2, &mut generated);
        assert!(count >= 1);
        let t = Term::new_truth();
        assert!(has(&generated, vec![Literal::new(true, t.clone(), t)]));
    }
}

#[test]
fn superposition_needs_an_equation_and_a_unifier() {
    for ord in orderings() {
        let mut generated = Vec::new();
        // a disequation is not superposed from
        let c1 = clause(vec![Literal::new(true, g(x()), x())]);
        assert_eq!(superposition(&ord, &c1, &clause(vec![p(g(a()))]), &mut generated), 0);
        // no subterm of P(b) unifies with g(x), and variables are not superposed into
        let c2 = clause(vec![Literal::new(false, g(x()), a())]);
        assert_eq!(superposition(&ord, &c2, &clause(vec![p(b())]), &mut generated), 0);
        assert_eq!(superposition(&ord, &c2, &clause(vec![p(y())]), &mut generated), 0);
        assert!(generated.is_empty());
    }
}

#[test]
fn superposition_keeps_the_other_literals() {
    for ord in orderings() {
        // a = b | Q and P(a) | R with a > b: no other literal may be greater
        let q = Literal::new(false, Term::new_special_function(6, Vec::new()), Term::new_truth());
        let c1 = clause(vec![Literal::new(false, g(a()), b())]);
        let c2 = clause(vec![p(g(a())), q.clone()]);
        let mut generated = Vec::new();
        superposition(&ord, &c1, &c2, &mut generated);
        assert!(has(&generated, vec![q, p(b())]));
    }
}
