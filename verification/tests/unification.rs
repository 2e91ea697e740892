use serkr::literal::Literal;
use serkr::unification::unify_literals;
use serkr::cnf::ast::{Formula, Term as FormulaTerm};
use serkr::matching::match_term;
use serkr::parser::internal_parser::{parse, SymbolTable};
use serkr::substitution::Substitution;
use serkr::term::Term;
use serkr::unification::{fullunify, mgu, UnificationError};

fn to_term(t: &FormulaTerm) -> Term {
    match t {
        FormulaTerm::Variable(id) => Term::new_variable(*id),
        FormulaTerm::Function(id, args) => Term::new_function(*id, args.iter().map(to_term).collect()),
    }
}

fn equals_to_eqs(f: Formula) -> Vec<(Term, Term)> {
    match f {
        Formula::Predicate(_, args) => vec![(to_term(&args[0]), to_term(&args[1]))],
        _ => panic!("WTF?"),
    }
}

fn variable(table: &SymbolTable, name: &str) -> Term {
    Term::new_variable(table.variable(name).unwrap())
}

fn function(table: &SymbolTable, name: &str, args: Vec<Term>) -> Term {
    Term::new_function(table.symbol(name).unwrap(), args)
}

#[test]
fn fullunify_1() {
    let (f, table) = parse("Equal(f(x, g(y)), f(f(z), w))").unwrap();
    let eqs = equals_to_eqs(f);
    let mgu = fullunify(eqs).unwrap();
    assert_eq!(mgu.size(), 2);
    assert_eq!(
        *mgu.get(&variable(&table, "w")).unwrap(),
        function(&table, "g", vec![variable(&table, "y")])
    );
    assert_eq!(
        *mgu.get(&variable(&table, "x")).unwrap(),
        function(&table, "f", vec![variable(&table, "z")])
    );
}

#[test]
fn fullunify_2() {
    let (f, table) = parse("Equal(f(x, y), f(y, x))").unwrap();
    let eqs = equals_to_eqs(f);
    let mgu = fullunify(eqs).unwrap();
    // Other way round is okay too.
    assert_eq!(mgu.size(), 1);
    assert_eq!(*mgu.get(&variable(&table, "y")).unwrap(), variable(&table, "x"));
}

#[test]
fn fullunify_3() {
    let (f, _) = parse("Equal(f(x, g(y)), f(y, x))").unwrap();
    let eqs = equals_to_eqs(f);
    assert!(fullunify(eqs).is_err());
}

fn x() -> Term {
    Term::new_variable(-1)
}

fn y() -> Term {
    Term::new_variable(-2)
}

fn a() -> Term {
    Term::new_function(1, Vec::new())
}

fn b() -> Term {
    Term::new_function(2, Vec::new())
}

fn f(s: Term, t: Term) -> Term {
    Term::new_function(3, vec![s, t])
}

fn g(s: Term) -> Term {
    Term::new_function(4, vec![s])
}

fn instance(s: &Substitution, t: &Term) -> Term {
    s.apply(t)
}

#[test]
fn mgu_makes_both_terms_equal() {
    let s = f(x(), g(y()));
    let t = f(g(a()), g(g(x())));
    let sigma = mgu(&s, &t).unwrap();
    assert_eq!(instance(&sigma, &s), instance(&sigma, &t));
    assert_eq!(instance(&sigma, &s), f(g(a()), g(g(g(a())))));
    // the unifier is in solved form: applying it twice changes nothing more
    assert_eq!(instance(&sigma, &instance(&sigma, &s)), instance(&sigma, &s));
}

#[test]
fn mgu_of_equal_terms_is_empty() {
    let sigma = mgu(&f(x(), a()), &f(x(), a())).unwrap();
    assert_eq!(sigma.size(), 0);
}

#[test]
fn mgu_fails_on_symbol_clash() {
    assert_eq!(mgu(&a(), &b()).err(), Some(UnificationError::NotUnifiable));
    assert_eq!(mgu(&g(a()), &f(a(), a())).err(), Some(UnificationError::NotUnifiable));
}

#[test]
fn mgu_fails_on_occurs_check() {
    assert_eq!(mgu(&x(), &g(x())).err(), Some(UnificationError::NotUnifiable));
    assert_eq!(mgu(&f(x(), y()), &f(g(y()), g(x()))).err(), Some(UnificationError::NotUnifiable));
}

#[test]
fn mgu_tells_function_and_predicate_symbols_apart() {
    let p = Term::new_special_function(1, Vec::new());
    assert!(mgu(&a(), &p).is_err());
}

#[test]
fn match_binds_the_pattern_only() {
    let p = f(x(), g(y()));
    let q = f(g(a()), g(b()));
    let sigma = match_term(&p, &q).unwrap();
    assert_eq!(sigma.size(), 2);
    assert_eq!(instance(&sigma, &p), q);
    assert_eq!(*sigma.get(&x()).unwrap(), g(a()));
    assert_eq!(*sigma.get(&y()).unwrap(), b());
}

#[test]
fn match_is_one_sided() {
    // x can be sent to a, but a cannot be sent to x
    assert!(match_term(&x(), &a()).is_some());
    assert!(match_term(&a(), &x()).is_none());
    // no occurs check: x matches g(x)
    let sigma = match_term(&x(), &g(x())).unwrap();
    assert_eq!(*sigma.get(&x()).unwrap(), g(x()));
}

#[test]
fn match_needs_one_image_for_each_variable() {
    assert!(match_term(&f(x(), x()), &f(a(), b())).is_none());
    assert!(match_term(&f(x(), x()), &f(a(), a())).is_some());
}

#[test]
fn substitution_insert_and_get() {
    let mut s = Substitution::new();
    assert_eq!(s.size(), 0);
    s.insert(-1, a());
    assert_eq!(s.size(), 1);
    assert_eq!(*s.get(&x()).unwrap(), a());
    assert!(s.get(&y()).is_none());
    assert!(s.get(&a()).is_none());
    assert_eq!(Substitution::default().size(), 0);
}

#[test]
fn literals_are_unified_both_ways_round() {
    let x = || Term::new_variable(-1);
    let y = || Term::new_variable(-2);
    let a = || Term::new_function(1, Vec::new());
    let b = || Term::new_function(2, Vec::new());
    let g = |t: Term| Term::new_function(3, vec![t]);
    // left with left and right with right
    let s = unify_literals(&Literal::new(false, x(), g(y())), &Literal::new(false, a(), g(b()))).unwrap();
    assert!(s.apply(&x()) == a() && s.apply(&y()) == b());
    // crosswise where that fails
    let s = unify_literals(&Literal::new(true, g(x()), a()), &Literal::new(true, a(), g(b()))).unwrap();
    assert!(s.apply(&x()) == b());
    assert_eq!(s.size(), 1);
    // never between an equation and a disequation
    assert!(unify_literals(&Literal::new(false, x(), a()), &Literal::new(true, x(), a())).is_err());
    // one substitution for both sides
    assert!(unify_literals(&Literal::new(false, x(), x()), &Literal::new(false, a(), b())).is_err());
    // the occurs check
    assert!(unify_literals(&Literal::new(false, x(), a()), &Literal::new(false, g(x()), a())).is_err());
}

#[test]
fn the_images_of_a_substitution_are_mapped() {
    let x = || Term::new_variable(-1);
    let y = || Term::new_variable(-2);
    let z = || Term::new_variable(-3);
    let a = || Term::new_function(1, Vec::new());
    let g = |t: Term| Term::new_function(3, vec![t]);
    let mut s = Substitution::new();
    s.insert(-1, g(y()));
    s.insert(-3, y());
    let mut sigma = Substitution::new();
    sigma.insert(-2, a());
    s.map_images(&sigma);
    assert_eq!(s.size(), 2);
    assert!(s.apply(&x()) == g(a()));
    assert!(s.apply(&z()) == a());
    // a variable outside the domain stays as it is
    assert!(s.apply(&y()) == y());
    let mut empty = Substitution::new();
    empty.map_images(&sigma);
    assert_eq!(empty.size(), 0);
}
