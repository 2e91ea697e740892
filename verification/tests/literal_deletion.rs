use serkr::clause::Clause;
use serkr::literal::Literal;
use serkr::simplification::literal_deletion::{delete_duplicates, delete_resolved, simplify};
use serkr::term::Term;

#[test]
fn delete_resolved_1() {
    let x = Term::new(-1, false, Vec::new());
    let y = Term::new(-2, false, Vec::new());
    let z = Term::new(-3, false, Vec::new());
    let l1 = Literal::new(false, x.clone(), y.clone());
    let l2 = Literal::new(true, z.clone(), x.clone());
    let l3 = Literal::new(true, y.clone(), y.clone());
    let l4 = Literal::new(false, x, z);
    let mut cl = Clause::new_from_vec(vec![l1.clone(), l2.clone(), l3.clone(), l4.clone()]);

    delete_resolved(&mut cl);
    assert_eq!(cl.size(), 3);
    assert!(cl.iter().any(|l| *l == l1));
    assert!(cl.iter().any(|l| *l == l2));
    assert!(!cl.iter().any(|l| *l == l3));
    assert!(cl.iter().any(|l| *l == l4));
}

#[test]
fn delete_resolved_2() {
    let x = Term::new(-1, false, Vec::new());
    let y = Term::new(-2, false, Vec::new());
    let z = Term::new(-3, false, Vec::new());
    let l1 = Literal::new(false, x.clone(), y);
    let l2 = Literal::new(true, z, x);
    let mut cl = Clause::new_from_vec(vec![l1, l2]);

    let cl_copy = cl.clone();
    delete_resolved(&mut cl);
    assert_eq!(cl, cl_copy);
}

#[test]
fn delete_resolved_3() {
    let x = Term::new(-1, false, Vec::new());
    let l = Literal::new(true, x.clone(), x);
    let mut cl = Clause::new_from_vec(vec![l.clone(), l.clone(), l]);

    delete_resolved(&mut cl);
    assert!(cl.is_empty());
}

#[test]
fn delete_duplicates_1() {
    // A disequation and the equation between the same terms are different
    // literals: only literals of equal polarity repeat each other.
    let x = Term::new(-1, false, Vec::new());
    let y = Term::new(-2, false, Vec::new());
    let z = Term::new(-3, false, Vec::new());
    let l1 = Literal::new(true, x.clone(), y.clone());
    let l2 = Literal::new(true, z.clone(), x.clone());
    let l3 = Literal::new(false, y, x);
    let mut cl = Clause::new_from_vec(vec![l1.clone(), l2.clone(), l3.clone()]);

    delete_duplicates(&mut cl);

    assert_eq!(cl.size(), 3);
    assert!(cl.iter().any(|l| *l == l1));
    assert!(cl.iter().any(|l| *l == l2));
    assert!(cl.iter().any(|l| *l == l3));
}

#[test]
fn delete_duplicates_2() {
    let x = Term::new(-1, false, Vec::new());
    let y = Term::new(-2, false, Vec::new());
    let z = Term::new(-3, false, Vec::new());
    let w = Term::new(-4, false, Vec::new());
    let l1 = Literal::new(true, x.clone(), y.clone());
    let l2 = Literal::new(true, z.clone(), w.clone());
    let l3 = Literal::new(false, w.clone(), x.clone());
    let l4 = Literal::new(false, y, z);
    let mut cl = Clause::new_from_vec(vec![l1, l2, l3, l4]);
    let cl_copy = cl.clone();

    delete_duplicates(&mut cl);
    assert!(cl == cl_copy);
}

#[test]
fn delete_duplicates_3() {
    let x = Term::new(-1, false, Vec::new());
    let l = Literal::new(false, x.clone(), x);
    let mut cl = Clause::new_from_vec(vec![l.clone(), l.clone(), l.clone()]);

    delete_duplicates(&mut cl);
    assert_eq!(cl.size(), 1);
    assert!(*cl.at(0) == l);
}

#[test]
fn simplify_1() {
    // The resolved literal goes, and so does the repeated equation; the
    // equation and the disequation between x and y both stay.
    let x = Term::new(-1, false, Vec::new());
    let y = Term::new(-2, false, Vec::new());
    let z = Term::new(-3, false, Vec::new());
    let w = Term::new(-4, false, Vec::new());
    let l1 = Literal::new(true, y.clone(), x.clone());
    let l2 = Literal::new(false, w.clone(), z.clone());
    let l3 = Literal::new(true, w.clone(), w.clone());
    let l4 = Literal::new(false, x, y);
    let l5 = Literal::new(false, z, w);
    let mut cl = Clause::new_from_vec(vec![l1.clone(), l2.clone(), l3.clone(), l4.clone(), l5.clone()]);

    simplify(&mut cl);
    assert_eq!(cl.size(), 3);
    assert!(cl.iter().any(|l| *l == l1));
    assert!(cl.iter().any(|l| *l == l2));
    assert!(!cl.iter().any(|l| *l == l3));
    assert!(cl.iter().any(|l| *l == l4));
    assert_eq!(cl.iter().filter(|l| **l == l5).count(), 1);
}

#[test]
fn duplicates_of_equal_polarity_are_deleted() {
    let x = Term::new(-1, false, Vec::new());
    let y = Term::new(-2, false, Vec::new());
    let l1 = Literal::new(false, x.clone(), y.clone());
    let l2 = Literal::new(false, y.clone(), x.clone());
    let l3 = Literal::new(true, x, y);
    let mut cl = Clause::new_from_vec(vec![l1.clone(), l2, l3.clone(), l3.clone()]);
    delete_duplicates(&mut cl);
    assert_eq!(cl.size(), 2);
    assert!(*cl.at(0) == l1);
    assert!(*cl.at(1) == l3);
}
