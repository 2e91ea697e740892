use serkr::tptp_parser::ast::{AnnotatedFormula, TptpInput};
use serkr::tptp_parser::includes::{gather, include_paths};
use serkr::tptp_parser::parser::parse_tptp;

fn formulas_of(text: &str) -> Vec<AnnotatedFormula> {
    let inputs = parse_tptp(text).unwrap();
    assert!(include_paths(&inputs).is_empty());
    gather(&inputs, &Vec::new())
}

fn name(af: &AnnotatedFormula) -> String {
    match af {
        AnnotatedFormula::Cnf(f) => f.0.clone(),
        AnnotatedFormula::Fof(f) => f.0.clone(),
    }
}

#[test]
fn the_included_files_are_named_in_the_order_of_the_directives() {
    let inputs = parse_tptp(
        "include('Axioms/A.ax').\ncnf(one, axiom, p(a)).\ninclude('Axioms/B.ax', [two, three]).\n",
    )
    .unwrap();
    assert_eq!(include_paths(&inputs), vec!["Axioms/A.ax".to_owned(), "Axioms/B.ax".to_owned()]);
    assert!(include_paths(&Vec::<TptpInput>::new()).is_empty());
}

#[test]
fn a_problem_without_directives_holds_its_own_formulae() {
    let formulas = formulas_of("cnf(one, axiom, p(a)).\nfof(two, conjecture, ![X]: p(X)).\n");
    assert_eq!(formulas.len(), 2);
    assert_eq!(name(&formulas[0]), "one");
    assert_eq!(name(&formulas[1]), "two");
    assert!(matches!(formulas[0], AnnotatedFormula::Cnf(_)));
    assert!(matches!(formulas[1], AnnotatedFormula::Fof(_)));
}

#[test]
fn the_formulae_of_a_file_stand_at_the_place_of_its_directive() {
    let inputs = parse_tptp(
        "cnf(first, axiom, p(a)).\ninclude('A.ax').\ncnf(middle, axiom, q(a)).\ninclude('B.ax', [two, four]).\ncnf(last, axiom, r(a)).\n",
    )
    .unwrap();
    let a = formulas_of("cnf(a_one, axiom, p(b)).\ncnf(a_two, axiom, p(c)).\n");
    let b = formulas_of(
        "cnf(one, axiom, q(b)).\ncnf(two, axiom, q(c)).\nfof(three, axiom, q(d)).\nfof(four, axiom, q(e)).\n",
    );
    let all = gather(&inputs, &vec![a, b]);
    let names: Vec<String> = all.iter().map(name).collect();
    assert_eq!(names, vec!["first", "a_one", "a_two", "middle", "two", "four", "last"]);
}

#[test]
fn names_that_a_file_does_not_hold_select_nothing() {
    let inputs = parse_tptp("include('A.ax', [missing]).\n").unwrap();
    let a = formulas_of("cnf(one, axiom, p(b)).\n");
    assert!(gather(&inputs, &vec![a]).is_empty());
    let inputs = parse_tptp("include('A.ax').\n").unwrap();
    assert!(gather(&inputs, &vec![Vec::new()]).is_empty());
}
