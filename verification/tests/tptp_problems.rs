use serkr::problem::{clausify, start_search};
use serkr::proof_result::ProofResult;
use serkr::proof_search::saturation::{proof_result, saturate, SaturationResult};
use serkr::tptp_parser::ast::{AnnotatedFormula, Formula, Term, TptpInput};
use serkr::tptp_parser::parser::{
    annotated_formula_names_match, include_selects, parse_inputs, parse_tptp, TptpError,
};
use serkr::tptp_parser::preprocess::{
    is_double_quote, preprocess, remove_comments, remove_empty_lines, strip_line_comments,
};
use serkr::tptp_parser::text::{chars_of, text_of};

fn formulas(text: &str) -> Vec<AnnotatedFormula> {
    parse_tptp(text)
        .unwrap()
        .into_iter()
        .map(|input| match input {
            TptpInput::AnnForm(f) => f,
            TptpInput::Incl(_) => panic!("no file to take formulae from"),
        })
        .collect()
}

fn outcome(text: &str, use_lpo: bool, iterations: u64) -> ProofResult {
    let clauses = clausify(&formulas(text)).unwrap();
    let mut state = start_search(clauses, use_lpo);
    proof_result(saturate(&mut state, iterations))
}

#[test]
fn block_comments_are_removed() {
    assert_eq!(remove_comments("a /* b */ c").unwrap(), "a  c");
    assert_eq!(remove_comments("/* one */x/* two\nlines **/y").unwrap(), "xy");
    assert_eq!(remove_comments("no comment").unwrap(), "no comment");
    assert_eq!(remove_comments("a /* open").unwrap(), "a /* open");
}

#[test]
fn line_comments_are_removed_with_the_line_ends() {
    assert_eq!(strip_line_comments("p(a). % a fact\nq(b)."), "p(a). q(b).");
    assert_eq!(strip_line_comments("% only a comment"), "");
    assert_eq!(strip_line_comments("a\r\nb\nc"), "abc");
    assert_eq!(strip_line_comments("a\rb"), "a\rb");
    assert_eq!(strip_line_comments(""), "");
}

#[test]
fn a_percent_sign_in_a_string_begins_no_comment() {
    assert_eq!(strip_line_comments("p('50%') % half"), "p('50%') ");
    assert_eq!(strip_line_comments("p(\"50%\") % half"), "p(\"50%\") ");
    // an escaped quote does not close the string
    assert_eq!(strip_line_comments("p('a\\'%b') % c"), "p('a\\'%b') ");
    // two backslashes are a character, so the quote after them closes
    assert_eq!(strip_line_comments("p('a\\\\') % c"), "p('a\\\\') ");
    // a double quote inside single quotes is an ordinary character
    assert_eq!(strip_line_comments("p('\"') % c"), "p('\"') ");
    // a string ends with its line
    assert_eq!(strip_line_comments("p('a\nb % c"), "p('ab ");
}

#[test]
fn line_ends_are_removed_with_the_blanks_before_them() {
    assert_eq!(remove_empty_lines("a  \nb\n\n  \nc").unwrap(), "abc");
    assert_eq!(remove_empty_lines("a b ").unwrap(), "a b ");
    assert_eq!(preprocess("p. /* x */ % y\n  \nq.").unwrap(), "p.    q.");
}

#[test]
fn double_quotes() {
    assert!(is_double_quote('"'));
    assert!(!is_double_quote('\''));
}

#[test]
fn texts_and_their_characters() {
    let v = chars_of("a\u{e9}z");
    assert_eq!(v, vec!['a', '\u{e9}', 'z']);
    assert_eq!(text_of(&v, 1, 3), "\u{e9}z");
    assert_eq!(text_of(&v, 2, 2), "");
    assert!(chars_of("").is_empty());
}

#[test]
fn a_problem_in_first_order_form() {
    let inputs = parse_tptp(
        "% Pelletier 18\nfof(drinker, conjecture, ( ? [Y] : ! [X] : ( f(Y) => f(X) ) ), file('x', y)).\n",
    )
    .unwrap();
    let f = |v: &str| Formula::Predicate("f".to_owned(), vec![Term::Variable(v.to_owned())]);
    let expected = Formula::Exists(
        "Y".to_owned(),
        Box::new(Formula::Forall(
            "X".to_owned(),
            Box::new(Formula::Implies(Box::new(f("Y")), Box::new(f("X")))),
        )),
    );
    assert_eq!(
        inputs,
        vec![TptpInput::AnnForm(AnnotatedFormula::Fof((
            "drinker".to_owned(),
            "conjecture".to_owned(),
            expected
        )))]
    );
}

#[test]
fn the_connectives_of_first_order_form() {
    let parse_one = |s: &str| match parse_inputs(s).unwrap().pop().unwrap() {
        TptpInput::AnnForm(AnnotatedFormula::Fof(f)) => f.2,
        _ => panic!("a formula in first-order form was expected"),
    };
    let p = || Formula::Predicate("p".to_owned(), vec![]);
    let q = || Formula::Predicate("q".to_owned(), vec![]);
    let r = || Formula::Predicate("r".to_owned(), vec![]);
    let b = |f: Formula| Box::new(f);
    assert_eq!(parse_one("fof(a,axiom,p <=> q)."), Formula::Equivalent(b(p()), b(q())));
    assert_eq!(parse_one("fof(a,axiom,p <= q)."), Formula::Implies(b(q()), b(p())));
    assert_eq!(
        parse_one("fof(a,axiom,p <~> q)."),
        Formula::Not(b(Formula::Equivalent(b(p()), b(q()))))
    );
    assert_eq!(parse_one("fof(a,axiom,p ~| q)."), Formula::Not(b(Formula::Or(b(p()), b(q())))));
    assert_eq!(parse_one("fof(a,axiom,p ~& q)."), Formula::Not(b(Formula::And(b(p()), b(q())))));
    assert_eq!(
        parse_one("fof(a,axiom,p & ~ q & r)."),
        Formula::And(b(Formula::And(b(p()), b(Formula::Not(b(q()))))), b(r()))
    );
    assert_eq!(
        parse_one("fof(a,axiom,(p | q) => ~ (r))."),
        Formula::Implies(b(Formula::Or(b(p()), b(q()))), b(Formula::Not(b(r()))))
    );
    assert_eq!(
        parse_one("fof(a,axiom,! [X,Y] : X != Y)."),
        Formula::Forall(
            "X".to_owned(),
            b(Formula::Forall(
                "Y".to_owned(),
                b(Formula::Not(b(Formula::Predicate(
                    "=".to_owned(),
                    vec![Term::Variable("X".to_owned()), Term::Variable("Y".to_owned())]
                ))))
            ))
        )
    );
}

#[test]
fn entries_of_a_problem() {
    let inputs = parse_tptp("include('Axioms/A.ax',[one]).\ncnf(two,axiom,p).\n").unwrap();
    assert_eq!(inputs.len(), 2);
    assert_eq!(
        inputs[0],
        TptpInput::Incl(("Axioms/A.ax".to_owned(), Some(vec!["one".to_owned()])))
    );
    assert!(parse_tptp("").unwrap().is_empty());
    assert!(parse_tptp("% nothing\n").unwrap().is_empty());
}

#[test]
fn what_is_not_a_problem() {
    assert_eq!(parse_inputs("cnf(a,axiom,p)").err(), Some(TptpError::UnexpectedEnd));
    assert_eq!(parse_inputs("cnf(a,axiom,p").err(), Some(TptpError::UnexpectedEnd));
    assert_eq!(
        parse_inputs("tff(a,axiom,p).").err(),
        Some(TptpError::UnexpectedCharacter(3))
    );
    assert_eq!(
        parse_inputs("cnf(a,axiom,X).").err(),
        Some(TptpError::UnexpectedCharacter(13))
    );
    assert_eq!(
        parse_inputs("Cnf(a,axiom,p).").err(),
        Some(TptpError::UnexpectedCharacter(0))
    );
    assert_eq!(parse_inputs("cnf(a,axiom,'p).").err(), Some(TptpError::UnexpectedEnd));
}

#[test]
fn formulae_are_taken_by_name() {
    let list = formulas("cnf(one,axiom,p).\nfof(two,axiom,q).\n");
    assert!(annotated_formula_names_match(&list[0], "one"));
    assert!(!annotated_formula_names_match(&list[0], "two"));
    assert!(annotated_formula_names_match(&list[1], "two"));
    assert!(include_selects(&list[0], &None));
    assert!(include_selects(&list[0], &Some(vec!["two".to_owned(), "one".to_owned()])));
    assert!(!include_selects(&list[0], &Some(vec!["two".to_owned()])));
    assert!(!include_selects(&list[0], &Some(Vec::new())));
}

#[test]
fn a_propositional_theorem() {
    let text = "fof(c, conjecture, ( ( p => q ) <=> ( ~ q => ~ p ) )).";
    for use_lpo in [false, true] {
        assert_eq!(outcome(text, use_lpo, 10000), ProofResult::Theorem);
    }
}

#[test]
fn the_drinker_theorem() {
    let text = "fof(c, conjecture, ( ? [Y] : ! [X] : ( f(Y) => f(X) ) )).";
    for use_lpo in [false, true] {
        assert_eq!(outcome(text, use_lpo, 10000), ProofResult::Theorem);
    }
}

#[test]
fn groups_of_exponent_two_are_commutative() {
    let text = "
        fof(left_identity, axiom, ! [X] : mult(e, X) = X).
        fof(left_inverse, axiom, ! [X] : mult(inverse(X), X) = e).
        fof(associativity, axiom, ! [X,Y,Z] : mult(mult(X,Y),Z) = mult(X,mult(Y,Z))).
        fof(commutativity, conjecture,
            ( ( ! [X] : mult(X,X) = e ) => ( ! [X,Y] : mult(X,Y) = mult(Y,X) ) )).
    ";
    for use_lpo in [false, true] {
        assert_eq!(outcome(text, use_lpo, 10000), ProofResult::Theorem);
    }
}

#[test]
fn a_satisfiable_problem_is_saturated() {
    let text = "fof(one, axiom, p(a)).\nfof(two, axiom, ~ p(b)).";
    for use_lpo in [false, true] {
        assert_eq!(outcome(text, use_lpo, 10000), ProofResult::CounterSatisfiable);
    }
}

#[test]
fn a_formula_that_is_no_theorem() {
    let text = "fof(c, conjecture, ( p => ( q => r ) )).";
    for use_lpo in [false, true] {
        assert_eq!(outcome(text, use_lpo, 10000), ProofResult::CounterSatisfiable);
    }
}

#[test]
fn clauses_with_equality_and_truth_values() {
    let text = "
        cnf(one, axiom, ( f(X) = X | $false )).
        cnf(two, negated_conjecture, f(f(a)) != a).
    ";
    for use_lpo in [false, true] {
        assert_eq!(outcome(text, use_lpo, 10000), ProofResult::Theorem);
    }
    assert_eq!(outcome("cnf(one, axiom, $true).", false, 10), ProofResult::CounterSatisfiable);
    assert_eq!(outcome("cnf(one, axiom, $false).", false, 10), ProofResult::Theorem);
}

const STEAMROLLER: &str = "
    fof(a1, axiom, ! [X] : ( wolf(X) => animal(X) )).
    fof(a2, axiom, ? [X] : wolf(X)).
    fof(a3, axiom, ! [X] : ( fox(X) => animal(X) )).
    fof(a4, axiom, ? [X] : fox(X)).
    fof(a5, axiom, ! [X] : ( bird(X) => animal(X) )).
    fof(a6, axiom, ? [X] : bird(X)).
    fof(a7, axiom, ! [X] : ( caterpillar(X) => animal(X) )).
    fof(a8, axiom, ? [X] : caterpillar(X)).
    fof(a9, axiom, ! [X] : ( snail(X) => animal(X) )).
    fof(a10, axiom, ? [X] : snail(X)).
    fof(a11, axiom, ? [X] : grain(X)).
    fof(a12, axiom, ! [X] : ( grain(X) => plant(X) )).
    fof(a13, axiom, ! [X] : ( animal(X) => ( ( ! [Y] : ( plant(Y) => eats(X,Y) ) )
        | ( ! [Z] : ( ( animal(Z) & smaller(Z,X) & ? [W] : ( plant(W) & eats(Z,W) ) )
            => eats(X,Z) ) ) ) )).
    fof(a14, axiom, ! [X,Y] : ( ( ( caterpillar(X) | snail(X) ) & bird(Y) ) => smaller(X,Y) )).
    fof(a15, axiom, ! [X,Y] : ( ( bird(X) & fox(Y) ) => smaller(X,Y) )).
    fof(a16, axiom, ! [X,Y] : ( ( fox(X) & wolf(Y) ) => smaller(X,Y) )).
    fof(a17, axiom, ! [X,Y] : ( ( wolf(X) & ( fox(Y) | grain(Y) ) ) => ~ eats(X,Y) )).
    fof(a18, axiom, ! [X,Y] : ( ( bird(X) & caterpillar(Y) ) => eats(X,Y) )).
    fof(a19, axiom, ! [X,Y] : ( ( bird(X) & snail(Y) ) => ~ eats(X,Y) )).
    fof(a20, axiom, ! [X] : ( ( caterpillar(X) | snail(X) ) => ? [Y] : ( plant(Y) & eats(X,Y) ) )).
    fof(c, conjecture, ? [X,Y] : ( animal(X) & animal(Y)
        & ? [Z] : ( grain(Z) & eats(Y,Z) & eats(X,Y) ) )).
";

#[test]
fn the_statistics_of_a_search_that_is_cut_short_are_consistent() {
    let clauses = clausify(&formulas(STEAMROLLER)).unwrap();
    let initial = clauses.len() as u64;
    let mut state = start_search(clauses, false);
    let result = saturate(&mut state, 30);
    assert_eq!(result, SaturationResult::ResourceOut);
    assert_eq!(proof_result(result), ProofResult::GaveUp);
    let stats = state.get_statistics();
    assert_eq!(stats.get_initial_clauses(), initial);
    assert_eq!(stats.get_iteration_count(), 30);
    assert!(stats.get_initial_clauses() + stats.get_inferred_count() >= stats.get_iteration_count());
    assert!(stats.get_iteration_count() >= stats.get_nonredundant_analyzed_count());
    assert_eq!(
        stats.get_iteration_count(),
        stats.get_trivial_count()
            + stats.get_forward_subsumed_count()
            + stats.get_nonredundant_analyzed_count()
    );
    assert!(stats.get_inferred_count() >= stats.get_nontrivial_inferred_count());
    assert!(
        stats.get_inferred_count()
            >= stats.get_superposition_inferred_count()
                + stats.get_equality_factoring_inferred_count()
                + stats.get_equality_resolution_inferred_count()
    );
    assert_eq!(state.passive_count() as u64 + 30, initial + stats.get_nontrivial_inferred_count());
}

#[test]
fn outcomes_in_words() {
    assert_eq!(ProofResult::Theorem.display_type(), "Theorem");
    assert_eq!(ProofResult::CounterSatisfiable.display_type(), "CounterSatisfiable");
    assert_eq!(ProofResult::Timeout.display_type(), "Timeout");
    assert_eq!(ProofResult::GaveUp.display_type(), "GaveUp");
    assert_eq!(ProofResult::Error("x".to_owned()).display_type(), "Error");
    assert!(ProofResult::Theorem.is_successful());
    assert!(!ProofResult::CounterSatisfiable.is_successful());
    assert!(ProofResult::Error("x".to_owned()).is_err());
    assert!(!ProofResult::Timeout.is_err());
    assert_eq!(proof_result(SaturationResult::Refutation), ProofResult::Theorem);
    assert_eq!(proof_result(SaturationResult::Saturated), ProofResult::CounterSatisfiable);
}
