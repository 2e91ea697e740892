use serkr::cnf::renaming_info::RenamingInfo;
use serkr::ordering::precedence::Precedence;
use serkr::ordering::term_ordering::TermOrdering;
use serkr::ordering::weight::Weight;
use serkr::parser::internal_parser::parse;
use serkr::resolution::{prove_formula, resolve_formula};

fn kbo() -> TermOrdering {
    TermOrdering::KBO(Precedence::Arity, Weight::new(1), 1)
}

fn by_resolution(text: &str, rounds: u64, iterations: u64) -> Result<bool, &'static str> {
    let (f, table) = parse(text).unwrap();
    let ri = RenamingInfo::new(-(table.variables.len() as i64), table.symbols.len() as i64);
    resolve_formula(f, ri, rounds, kbo(), iterations)
}

fn by_saturation(text: &str, iterations: u64) -> Result<bool, &'static str> {
    let (f, table) = parse(text).unwrap();
    let ri = RenamingInfo::new(-(table.variables.len() as i64), table.symbols.len() as i64);
    prove_formula(f, ri, kbo(), iterations)
}

#[test]
fn resolution_proves_within_its_rounds() {
    let text = "((forall x. (P(x) ==> Q(x))) /\\ P(a)) ==> Q(a)";
    // no iteration of the given-clause search is needed
    assert_eq!(by_resolution(text, 100, 0), Ok(true));
    assert_eq!(by_saturation(text, 1000), Ok(true));
}

#[test]
fn the_given_clause_search_takes_over_from_resolution() {
    let text = "((forall x. (P(x) ==> Q(x))) /\\ P(a)) ==> Q(a)";
    // without a round of resolution the proof is found all the same
    assert_eq!(by_resolution(text, 0, 1000), Ok(true));
    // and without rounds and iterations the search is given up
    assert_eq!(by_resolution(text, 0, 0), Err("The search was given up."));
}

#[test]
fn resolution_ends_where_nothing_is_left_to_resolve() {
    assert_eq!(by_resolution("(P ==> Q)", 100, 1000), Err("No proof found."));
    assert_eq!(by_saturation("(P ==> Q)", 1000), Err("No proof found."));
}

#[test]
fn a_formula_whose_negation_has_a_trivial_normal_form() {
    // the negation of a tautology without atoms left would be false; here
    // the clauses of the negation are refuted at once
    assert_eq!(by_resolution("(P \\/ ~P)", 100, 1000), Ok(true));
    assert_eq!(by_saturation("(P \\/ ~P)", 1000), Ok(true));
}
