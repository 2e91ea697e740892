use serkr::clause::Clause;
use serkr::literal::Literal;
use serkr::simplification::tautology_deletion::{td1, td2, trivial};
use serkr::term::Term;

#[test]
fn td1_1() {
    let x = Term::new(-1, false, Vec::new());
    let y = Term::new(-2, false, Vec::new());
    let z = Term::new(-3, false, Vec::new());
    let l1 = Literal::new(false, x.clone(), y.clone());
    let l2 = Literal::new(true, z.clone(), x.clone());
    let l3 = Literal::new(false, y.clone(), y.clone());
    let l4 = Literal::new(true, y, z);
    let cl = Clause::new_from_vec(vec![l1, l2, l3, l4]);

    assert!(td1(&cl));
}

#[test]
fn td1_2() {
    let x = Term::new(-1, false, Vec::new());
    let y = Term::new(-2, false, Vec::new());
    let z = Term::new(-3, false, Vec::new());
    let l1 = Literal::new(true, x.clone(), z.clone());
    let l2 = Literal::new(true, z.clone(), x.clone());
    let l3 = Literal::new(false, y, z);
    let cl = Clause::new_from_vec(vec![l1, l2, l3]);

    assert!(!td1(&cl));
}

#[test]
fn td1_3() {
    let cl = Clause::new_from_vec(Vec::new());
    assert!(!td1(&cl));
}

#[test]
fn td2_1() {
    let x = Term::new(-1, false, Vec::new());
    let y = Term::new(-2, false, Vec::new());
    let z = Term::new(-3, false, Vec::new());
    let l1 = Literal::new(true, x.clone(), y.clone());
    let l2 = Literal::new(false, z, x.clone());
    let l3 = Literal::new(false, y, x);
    let cl = Clause::new_from_vec(vec![l1, l2, l3]);

    assert!(td2(&cl));
}

#[test]
fn td2_2() {
    let x = Term::new(-1, false, Vec::new());
    let y = Term::new(-2, false, Vec::new());
    let l1 = Literal::new(true, x.clone(), y.clone());
    let l2 = Literal::new(true, x, y);
    let cl = Clause::new_from_vec(vec![l1, l2]);

    assert!(!td2(&cl));
}

#[test]
fn td2_3() {
    let cl = Clause::new_from_vec(Vec::new());
    assert!(!td2(&cl));
}

#[test]
fn trivial_is_either_test() {
    let x = Term::new(-1, false, Vec::new());
    let y = Term::new(-2, false, Vec::new());
    let reflexive = Clause::new_from_vec(vec![Literal::new(false, x.clone(), x.clone())]);
    let complementary = Clause::new_from_vec(vec![
        Literal::new(false, x.clone(), y.clone()),
        Literal::new(true, y.clone(), x.clone()),
    ]);
    let neither = Clause::new_from_vec(vec![Literal::new(true, x.clone(), x)]);
    assert!(trivial(&reflexive));
    assert!(trivial(&complementary));
    assert!(!trivial(&neither));
    assert!(!trivial(&Clause::new()));
}
