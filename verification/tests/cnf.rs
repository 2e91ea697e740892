use serkr::clause::Clause;
use serkr::cnf::ast::{Formula, Term};
use serkr::cnf::distribute::{distribute, distribute_or};
use serkr::cnf::drop_universal_quantifiers::{
    contains_universal_quantifiers, drop_universal_quantifiers, prenex,
};
use serkr::cnf::naive_cnf::cnf;
use serkr::cnf::nnf::nnf;
use serkr::cnf::renaming_info::RenamingInfo;
use serkr::cnf::skolemization::{skolemize, substitute};
use serkr::cnf::variable_renaming::{rename, rename_variable, rename_variable_in_term};
use serkr::flatten_cnf::{check_cnf, flatten_cnf};
use serkr::literal::Literal;
use serkr::resolution::negate;
use serkr::term::Term as ProverTerm;

fn same(a: &Formula, b: &Formula) -> bool {
    format!("{:?}", a) == format!("{:?}", b)
}

fn var(id: i64) -> Term {
    Term::Variable(id)
}

fn atom(id: i64, args: Vec<Term>) -> Formula {
    Formula::Predicate(id, args)
}

fn p() -> Formula {
    atom(1, vec![])
}

fn q() -> Formula {
    atom(2, vec![])
}

fn r() -> Formula {
    atom(3, vec![])
}

fn not(f: Formula) -> Formula {
    Formula::Not(Box::new(f))
}

fn and(f: Formula, g: Formula) -> Formula {
    Formula::And(Box::new(f), Box::new(g))
}

fn or(f: Formula, g: Formula) -> Formula {
    Formula::Or(Box::new(f), Box::new(g))
}

fn implies(f: Formula, g: Formula) -> Formula {
    Formula::Implies(Box::new(f), Box::new(g))
}

fn iff(f: Formula, g: Formula) -> Formula {
    Formula::Equivalent(Box::new(f), Box::new(g))
}

fn all(x: i64, f: Formula) -> Formula {
    Formula::Forall(x, Box::new(f))
}

fn some(x: i64, f: Formula) -> Formula {
    Formula::Exists(x, Box::new(f))
}

#[test]
fn negate_removes_or_adds_a_negation() {
    assert!(same(&negate(p()), &not(p())));
    assert!(same(&negate(not(p())), &p()));
    assert!(same(&negate(not(not(p()))), &not(p())));
}

#[test]
fn negation_normal_form() {
    assert!(same(&nnf(&not(not(p())), true), &p()));
    assert!(same(&nnf(&implies(p(), q()), true), &or(not(p()), q())));
    assert!(same(&nnf(&not(implies(p(), q())), true), &and(p(), not(q()))));
    assert!(same(&nnf(&not(and(p(), q())), true), &or(not(p()), not(q()))));
    assert!(same(&nnf(&p(), false), &not(p())));
    assert!(same(
        &nnf(&iff(p(), q()), true),
        &and(or(not(p()), q()), or(not(q()), p()))
    ));
    assert!(same(
        &nnf(&not(iff(p(), q())), true),
        &or(and(p(), not(q())), and(q(), not(p())))
    ));
    assert!(same(
        &nnf(&not(all(-1, some(-2, atom(1, vec![var(-1), var(-2)])))), true),
        &some(-1, all(-2, not(atom(1, vec![var(-1), var(-2)]))))
    ));
    assert!(same(&nnf(&not(Formula::True), true), &Formula::False));
}

#[test]
fn renaming_a_variable() {
    let t = Term::Function(7, vec![var(-1), Term::Function(8, vec![var(-2), var(-1)])]);
    let renamed = rename_variable_in_term(&t, -1, -5);
    assert_eq!(
        format!("{:?}", renamed),
        format!(
            "{:?}",
            Term::Function(7, vec![var(-5), Term::Function(8, vec![var(-2), var(-5)])])
        )
    );
    let f = all(-1, or(atom(1, vec![var(-1)]), some(-2, atom(2, vec![var(-1), var(-2)]))));
    assert!(same(
        &rename_variable(f, -1, -9),
        &all(-9, or(atom(1, vec![var(-9)]), some(-2, atom(2, vec![var(-9), var(-2)]))))
    ));
}

#[test]
fn bound_variables_are_renamed_apart() {
    // forall x. P(x) /\ exists x. Q(x), with the counter at -1
    let f = and(all(-1, atom(1, vec![var(-1)])), some(-1, atom(2, vec![var(-1)])));
    let mut ri = RenamingInfo::new(-1, 2);
    let renamed = rename(f, &mut ri);
    assert!(same(
        &renamed,
        &and(all(-2, atom(1, vec![var(-2)])), some(-3, atom(2, vec![var(-3)])))
    ));
    assert_eq!(ri.var_cnt, -3);
    assert_eq!(ri.fun_cnt, 2);
    // a variable that is bound twice in a row belongs to the inner quantifier
    let g = all(-1, some(-1, atom(1, vec![var(-1)])));
    let mut ri2 = RenamingInfo::new(-1, 2);
    assert!(same(
        &rename(g, &mut ri2),
        &all(-2, some(-3, atom(1, vec![var(-3)])))
    ));
}

#[test]
fn new_names_count_on() {
    let mut ri = RenamingInfo::new(-4, 7);
    assert_eq!(ri.create_new_variable_id(), -5);
    assert_eq!(ri.create_new_variable_id(), -6);
    assert_eq!(ri.create_new_function_id(), 8);
    assert_eq!(ri, RenamingInfo::new(-6, 8));
}

#[test]
fn skolem_functions_depend_on_the_universal_variables_around() {
    // forall x. exists y. forall z. exists w. P(x, y, z, w)
    let f = all(
        -1,
        some(-2, all(-3, some(-4, atom(1, vec![var(-1), var(-2), var(-3), var(-4)])))),
    );
    let mut ri = RenamingInfo::new(-4, 1);
    let mut universals = Vec::new();
    let s = skolemize(f, &mut universals, &mut ri);
    let sk1 = Term::Function(2, vec![var(-1)]);
    let sk2 = Term::Function(3, vec![var(-1), var(-3)]);
    assert!(same(
        &s,
        &all(-1, all(-3, atom(1, vec![var(-1), sk1, var(-3), sk2])))
    ));
    assert_eq!(ri.fun_cnt, 3);
    assert!(universals.is_empty());
}

#[test]
fn substituting_a_term() {
    let f = or(atom(1, vec![var(-1)]), not(atom(2, vec![var(-2), var(-1)])));
    let t = Term::Function(5, vec![]);
    assert!(same(
        &substitute(f, -1, &t),
        &or(
            atom(1, vec![Term::Function(5, vec![])]),
            not(atom(2, vec![var(-2), Term::Function(5, vec![])]))
        )
    ));
}

#[test]
fn universal_quantifiers_are_moved_to_the_front_and_dropped() {
    let f = or(all(-1, atom(1, vec![var(-1)])), all(-2, atom(2, vec![var(-2)])));
    let matrix = or(atom(1, vec![var(-1)]), atom(2, vec![var(-2)]));
    let front = prenex(f);
    assert!(same(&front, &all(-1, all(-2, or(atom(1, vec![var(-1)]), atom(2, vec![var(-2)]))))));
    assert!(contains_universal_quantifiers(&front));
    let dropped = drop_universal_quantifiers(front);
    assert!(same(&dropped, &matrix));
    assert!(!contains_universal_quantifiers(&dropped));
    // a quantifier below a conjunction is seen, one below a negation is not
    assert!(contains_universal_quantifiers(&and(p(), all(-1, q()))));
    assert!(!contains_universal_quantifiers(&not(all(-1, q()))));
}

#[test]
fn disjunctions_are_distributed() {
    assert!(same(&distribute(or(and(p(), q()), r())), &and(or(p(), r()), or(q(), r()))));
    assert!(same(&distribute(or(p(), and(q(), r()))), &and(or(p(), q()), or(p(), r()))));
    assert!(same(
        &distribute_or(&and(p(), q()), &and(r(), not(p()))),
        &and(
            and(or(p(), r()), or(p(), not(p()))),
            and(or(q(), r()), or(q(), not(p())))
        )
    ));
    assert!(same(&distribute(and(p(), or(q(), r()))), &and(p(), or(q(), r()))));
}

#[test]
fn conjunctive_normal_form() {
    // ~(P ==> Q) /\ (exists x. forall y. R(x, y))
    let f = and(
        not(implies(p(), q())),
        some(-1, all(-2, atom(3, vec![var(-1), var(-2)]))),
    );
    let mut ri = RenamingInfo::new(-2, 3);
    let c = cnf(f, &mut ri).unwrap();
    assert!(same(
        &c,
        &and(and(p(), not(q())), atom(3, vec![Term::Function(4, vec![]), var(-4)]))
    ));
    assert!(check_cnf(&c));
    assert_eq!(ri, RenamingInfo::new(-4, 4));
}

#[test]
fn the_names_can_run_out() {
    let f = all(-1, atom(1, vec![var(-1)]));
    let mut ri = RenamingInfo::new(i64::MIN, 1);
    assert!(cnf(f, &mut ri).is_none());
    let g = some(-1, atom(1, vec![var(-1)]));
    let mut ri2 = RenamingInfo::new(-1, i64::MAX);
    assert!(cnf(g, &mut ri2).is_none());
}

#[test]
fn clauses_of_a_normal_form() {
    // (P(x) \/ ~Q) /\ x = c /\ ~(c = x)
    let x = || var(-1);
    let c = || Term::Function(5, vec![]);
    let f = and(
        and(or(atom(1, vec![x()]), not(q())), atom(0, vec![x(), c()])),
        not(atom(0, vec![c(), x()])),
    );
    assert!(check_cnf(&f));
    let clauses: Vec<Clause> = flatten_cnf(f);
    assert_eq!(clauses.len(), 3);
    let px = ProverTerm::new_special_function(1, vec![ProverTerm::new_variable(-1)]);
    let q_term = ProverTerm::new_special_function(2, vec![]);
    let t = ProverTerm::new_truth;
    assert_eq!(clauses[0].size(), 2);
    assert!(*clauses[0].at(0) == Literal::new(false, px, t()));
    assert!(*clauses[0].at(1) == Literal::new(true, q_term, t()));
    let cx = ProverTerm::new_function(5, vec![]);
    assert!(*clauses[1].at(0) == Literal::new(false, ProverTerm::new_variable(-1), cx.clone()));
    assert!(*clauses[2].at(0) == Literal::new(true, cx, ProverTerm::new_variable(-1)));
}

#[test]
fn truth_values_in_a_normal_form() {
    let clauses = flatten_cnf(and(Formula::True, or(Formula::False, p())));
    assert_eq!(clauses.len(), 2);
    let t = ProverTerm::new_truth;
    // true is the equation T = T, false the disequation T != T
    assert!(*clauses[0].at(0) == Literal::new(false, t(), t()));
    assert!(*clauses[1].at(0) == Literal::new(true, t(), t()));
}

#[test]
fn what_is_not_in_normal_form() {
    assert!(!check_cnf(&or(p(), and(q(), r()))));
    assert!(!check_cnf(&not(not(p()))));
    assert!(!check_cnf(&implies(p(), q())));
    assert!(!check_cnf(&all(-1, p())));
    // equality has two arguments
    assert!(!check_cnf(&atom(0, vec![var(-1)])));
    // variables are negative, symbols are not
    assert!(!check_cnf(&atom(1, vec![var(3)])));
    assert!(!check_cnf(&atom(-1, vec![])));
    assert!(!check_cnf(&atom(1, vec![Term::Function(-2, vec![])])));
    assert!(check_cnf(&and(or(p(), not(q())), r())));
}
