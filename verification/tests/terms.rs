use serkr::clause::Clause;
use serkr::literal::{terms_equal, Literal};
use serkr::renaming::rename_clause;
use serkr::substitution::Substitution;
use serkr::term::Term;

fn x() -> Term {
    Term::new_variable(-1)
}

fn y() -> Term {
    Term::new_variable(-2)
}

fn a() -> Term {
    Term::new_function(1, Vec::new())
}

fn f(s: Term, t: Term) -> Term {
    Term::new_function(3, vec![s, t])
}

fn g(s: Term) -> Term {
    Term::new_function(4, vec![s])
}

#[test]
fn term_kinds() {
    assert!(x().is_variable());
    assert!(!x().is_function());
    assert!(a().is_function());
    assert_eq!(x().get_id(), -1);
    assert_eq!(f(x(), a()).get_id(), 3);
    assert_eq!(f(x(), a()).get_arity(), 2);
    assert_eq!(x().get_arity(), 0);
    assert!(Term::new_truth().is_truth());
    assert!(!a().is_truth());
    assert!(Term::new_special_function(1, Vec::new()).is_special_function());
    assert!(!a().is_special_function());
    assert_eq!(Term::new(-1, false, Vec::new()), x());
    assert_eq!(Term::new(3, false, vec![x(), a()]), f(x(), a()));
}

#[test]
fn function_and_predicate_symbols_differ() {
    assert!(a() != Term::new_special_function(1, Vec::new()));
    assert!(a() == a().clone());
    assert!(f(x(), a()) != f(a(), x()));
    assert!(g(a()) != f(a(), a()));
}

#[test]
fn occurrences() {
    let t = f(g(x()), a());
    assert!(t.occurs(-1));
    assert!(!t.occurs(-2));
    assert!(t.occurs_proper(&x()));
    assert!(t.occurs_proper(&g(x())));
    assert!(!t.occurs_proper(&t));
    assert!(!t.occurs_proper(&y()));
    assert!(!x().occurs_proper(&x()));
}

#[test]
fn replacing_a_variable() {
    let t = f(g(x()), f(x(), y()));
    assert_eq!(t.replace(-1, &a()), f(g(a()), f(a(), y())));
    assert_eq!(t.replace(-3, &a()), t);
}

#[test]
fn symbol_count_weighs_symbols_and_variables() {
    // two function symbols and one variable in g(x), and so on
    assert_eq!(x().symbol_count(2, 1), 1);
    assert_eq!(a().symbol_count(2, 1), 2);
    assert_eq!(f(g(x()), a()).symbol_count(2, 1), 7);
    assert_eq!(f(g(x()), a()).symbol_count(5, 3), 18);
    assert_eq!(f(a(), a()).symbol_count(u64::MAX, 1), u64::MAX);
    let l = Literal::new(false, g(x()), a());
    assert_eq!(l.symbol_count(2, 1), 5);
    let c = Clause::new_from_vec(vec![l.clone(), Literal::new(true, x(), y())]);
    assert_eq!(c.symbol_count(2, 1), 7);
    assert_eq!(Clause::new().symbol_count(2, 1), 0);
}

#[test]
fn positions_lead_to_the_subterms_that_are_not_variables() {
    let t = f(g(x()), a());
    let ps = t.positions();
    assert_eq!(ps, vec![vec![], vec![0], vec![1]]);
    assert_eq!(*t.subterm_at(&vec![0], 0), g(x()));
    assert_eq!(*t.subterm_at(&vec![0, 0], 0), x());
    assert_eq!(*t.subterm_at(&vec![], 0), t);
    assert_eq!(t.replace_at(&vec![0, 0], 0, &a()), f(g(a()), a()));
    assert_eq!(t.replace_at(&vec![1], 0, &y()), f(g(x()), y()));
    assert_eq!(t.replace_at(&vec![], 0, &y()), y());
    assert!(x().positions().is_empty());
}

#[test]
fn literals() {
    let l = Literal::new(false, x(), a());
    assert!(l.is_positive());
    assert!(!l.is_negative());
    assert_eq!(*l.get_lhs(), x());
    assert_eq!(*l.get_rhs(), a());
    assert!(l.negate().is_negative());
    assert!(l == Literal::new(false, a(), x()));
    assert!(l != l.negate());
    assert!(terms_equal(&l, &l.negate()));
    assert!(!terms_equal(&l, &Literal::new(false, x(), y())));
}

#[test]
fn clauses() {
    let l1 = Literal::new(false, x(), a());
    let l2 = Literal::new(true, y(), a());
    let mut c = Clause::new();
    assert!(c.is_empty());
    assert_eq!(c.size(), 0);
    c.add_literal(l1.clone());
    c.add_literals(Clause::new_from_vec(vec![l2.clone(), l1.clone()]));
    assert_eq!(c.size(), 3);
    assert!(*c.at(1) == l2);
    assert_eq!(c.iter().count(), 3);
    let removed = c.remove(0);
    assert!(removed == l1);
    assert!(*c.at(0) == l2);
    let swapped = c.swap_remove(0);
    assert!(swapped == l2);
    assert_eq!(c.size(), 1);
    c.set_id(7);
    assert_eq!(c.get_id(), 7);
    assert_eq!(c.clone().get_id(), 7);
}

#[test]
fn substitutions_apply_at_once() {
    let mut s = Substitution::new();
    s.insert(-1, y());
    s.insert(-2, a());
    // x becomes y, and that y is not replaced again
    assert_eq!(s.apply(&f(x(), y())), f(y(), a()));
    let mut t = g(x());
    t.subst(&s);
    assert_eq!(t, g(y()));
    let mut l = Literal::new(true, x(), y());
    l.subst(&s);
    assert!(l == Literal::new(true, y(), a()));
    let mut c = Clause::new_from_vec(vec![Literal::new(false, x(), x())]);
    c.subst(&s);
    assert!(*c.at(0) == Literal::new(false, y(), y()));
    assert!(s.binds(-1));
    assert!(!s.binds(-3));
}

#[test]
fn variable_renamings() {
    let mut s = Substitution::new();
    assert!(s.is_variable_renaming());
    s.insert(-1, y());
    assert!(s.is_variable_renaming());
    s.insert(-2, a());
    assert!(!s.is_variable_renaming());
    assert_eq!(s.clone().size(), 2);
}

#[test]
fn renaming_a_clause_apart() {
    let mut c = Clause::new_from_vec(vec![
        Literal::new(false, f(x(), y()), x()),
        Literal::new(true, y(), a()),
    ]);
    let mut counter: i64 = -10;
    assert!(rename_clause(&mut c, &mut counter));
    assert_eq!(counter, -12);
    let u = Term::new_variable(-11);
    let v = Term::new_variable(-12);
    assert!(*c.at(0) == Literal::new(false, f(u.clone(), v.clone()), u));
    assert!(*c.at(1) == Literal::new(true, v, a()));
}

#[test]
fn renaming_stops_when_the_variables_run_out() {
    let mut c = Clause::new_from_vec(vec![Literal::new(false, x(), y())]);
    let copy = c.clone();
    let mut counter: i64 = i64::MIN;
    assert!(!rename_clause(&mut c, &mut counter));
    assert_eq!(c, copy);
    assert_eq!(counter, i64::MIN);
}
