use serkr::cnf::ast::{Formula, Term};
use serkr::parser::internal_parser::{parse, ParseError};
use serkr::resolution::{prove, resolution};

fn shape(s: &str) -> String {
    format!("{:?}", parse(s).unwrap().0)
}

fn p() -> Formula {
    Formula::Predicate(1, vec![])
}

fn q() -> Formula {
    Formula::Predicate(2, vec![])
}

fn r() -> Formula {
    Formula::Predicate(3, vec![])
}

fn b(f: Formula) -> Box<Formula> {
    Box::new(f)
}

#[test]
fn connectives_bind_in_their_order() {
    assert_eq!(
        shape("P /\\ Q \\/ R"),
        format!("{:?}", Formula::Or(b(Formula::And(b(p()), b(q()))), b(r())))
    );
    assert_eq!(
        shape("P \\/ Q /\\ R"),
        format!("{:?}", Formula::Or(b(p()), b(Formula::And(b(q()), b(r())))))
    );
    assert_eq!(
        shape("~P /\\ Q ==> R"),
        format!(
            "{:?}",
            Formula::Implies(b(Formula::And(b(Formula::Not(b(p()))), b(q()))), b(r()))
        )
    );
    assert_eq!(
        shape("P ==> Q <=> R"),
        format!("{:?}", Formula::Equivalent(b(Formula::Implies(b(p()), b(q()))), b(r())))
    );
    // implication is read from the right
    assert_eq!(
        shape("P ==> Q ==> R"),
        format!("{:?}", Formula::Implies(b(p()), b(Formula::Implies(b(q()), b(r())))))
    );
}

#[test]
fn quantifiers_reach_to_the_right() {
    assert_eq!(
        shape("forall x. P(x) ==> Q"),
        format!(
            "{:?}",
            Formula::Forall(
                -1,
                b(Formula::Implies(
                    b(Formula::Predicate(1, vec![Term::Variable(-1)])),
                    b(Formula::Predicate(2, vec![]))
                ))
            )
        )
    );
    assert_eq!(
        shape("(exists y. P(y)) /\\ Q"),
        format!(
            "{:?}",
            Formula::And(
                b(Formula::Exists(-1, b(Formula::Predicate(1, vec![Term::Variable(-1)])))),
                b(Formula::Predicate(2, vec![]))
            )
        )
    );
}

#[test]
fn names_are_numbered_in_the_order_in_which_they_come() {
    let (f, table) = parse("P(f(x, c()), y) \\/ Q(x)").unwrap();
    assert_eq!(table.symbol("P"), Some(3));
    assert_eq!(table.symbol("f"), Some(2));
    assert_eq!(table.symbol("c"), Some(1));
    assert_eq!(table.symbol("Q"), Some(4));
    assert_eq!(table.symbol("g"), None);
    assert_eq!(table.variable("x"), Some(-1));
    assert_eq!(table.variable("y"), Some(-2));
    assert_eq!(table.variable("z"), None);
    assert_eq!(
        format!("{:?}", f),
        format!(
            "{:?}",
            Formula::Or(
                b(Formula::Predicate(
                    3,
                    vec![
                        Term::Function(2, vec![Term::Variable(-1), Term::Function(1, vec![])]),
                        Term::Variable(-2)
                    ]
                )),
                b(Formula::Predicate(4, vec![Term::Variable(-1)]))
            )
        )
    );
}

#[test]
fn what_cannot_be_read() {
    assert_eq!(parse("").err(), Some(ParseError::UnexpectedEnd));
    assert_eq!(parse("   ").err(), Some(ParseError::UnexpectedEnd));
    assert_eq!(parse("(P").err(), Some(ParseError::UnexpectedEnd));
    assert_eq!(parse("P /\\").err(), Some(ParseError::UnexpectedEnd));
    assert_eq!(parse("P(x").err(), Some(ParseError::UnexpectedEnd));
    assert_eq!(parse("forall x P").err(), Some(ParseError::UnexpectedCharacter(9)));
    assert_eq!(parse("P )").err(), Some(ParseError::UnexpectedCharacter(2)));
    assert_eq!(parse("P Q").err(), Some(ParseError::UnexpectedCharacter(2)));
    assert_eq!(parse("/\\ P").err(), Some(ParseError::UnexpectedCharacter(0)));
}

#[test]
fn a_text_without_a_formula_is_not_proved() {
    assert!(resolution("").is_err());
    assert!(prove("").is_err());
    assert!(resolution("P /\\").is_err());
}

#[test]
fn a_contradiction_is_not_proved_and_its_negation_is() {
    assert!(resolution("P /\\ ~P").is_err());
    assert_eq!(resolution("~(P /\\ ~P)"), Ok(true));
    assert_eq!(prove("~(P /\\ ~P)"), Ok(true));
    assert_eq!(resolution("(P ==> Q) ==> (Q ==> P)"), Err("No proof found."));
}

#[test]
fn both_orderings_prove_the_drinker_formula() {
    assert_eq!(resolution("exists x. (D(x) ==> forall y. D(y))"), Ok(true));
    assert_eq!(prove("exists x. (D(x) ==> forall y. D(y))"), Ok(true));
    assert_eq!(prove("exists y. forall x. (F(y) ==> F(x))"), Ok(true));
}
