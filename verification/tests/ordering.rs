use serkr::literal::Literal;
use serkr::ordering::kbo::kbo_gt;
use serkr::ordering::lpo::{lpo_ge, lpo_gt};
use serkr::ordering::precedence::Precedence;
use serkr::ordering::term_ordering::{multiset_difference, Comparison, TermOrdering};
use serkr::ordering::weight::Weight;
use serkr::substitution::Substitution;
use serkr::term::Term;

fn x() -> Term {
    Term::new_variable(-1)
}

fn y() -> Term {
    Term::new_variable(-2)
}

fn a() -> Term {
    Term::new_function(1, Vec::new())
}

fn b() -> Term {
    Term::new_function(2, Vec::new())
}

fn f(s: Term, t: Term) -> Term {
    Term::new_function(3, vec![s, t])
}

fn g(s: Term) -> Term {
    Term::new_function(4, vec![s])
}

fn p(s: Term) -> Term {
    Term::new_special_function(5, vec![s])
}

fn lpo() -> TermOrdering {
    TermOrdering::LPO(Precedence::Arity)
}

fn kbo() -> TermOrdering {
    TermOrdering::KBO(Precedence::Arity, Weight::new(1), 1)
}

fn both() -> Vec<TermOrdering> {
    vec![lpo(), kbo()]
}

#[test]
fn a_term_is_greater_than_its_proper_subterms() {
    for ord in both() {
        assert!(ord.gt(&g(x()), &x()));
        assert!(ord.gt(&f(g(a()), b()), &g(a())));
        assert!(ord.gt(&f(g(a()), b()), &a()));
        assert!(!ord.gt(&x(), &g(x())));
    }
}

#[test]
fn a_variable_is_greater_than_nothing() {
    for ord in both() {
        assert!(!ord.gt(&x(), &a()));
        assert!(!ord.gt(&x(), &y()));
        assert!(!ord.gt(&a(), &x()));
        assert!(!ord.gt(&g(y()), &x()));
    }
}

#[test]
fn gt_is_irreflexive() {
    for ord in both() {
        for t in [x(), a(), g(x()), f(g(a()), y())] {
            assert!(!ord.gt(&t, &t));
            assert!(ord.ge(&t, &t));
        }
    }
}

#[test]
fn gt_is_transitive_on_a_chain() {
    for ord in both() {
        let s = f(g(b()), a());
        let t = g(g(a()));
        let u = g(a());
        assert!(ord.gt(&s, &t));
        assert!(ord.gt(&t, &u));
        assert!(ord.gt(&s, &u));
    }
}

#[test]
fn gt_is_stable_under_substitution() {
    for ord in both() {
        let s = f(x(), g(y()));
        let t = f(x(), y());
        assert!(ord.gt(&s, &t));
        let mut sigma = Substitution::new();
        sigma.insert(-1, g(a()));
        sigma.insert(-2, f(a(), b()));
        assert!(ord.gt(&sigma.apply(&s), &sigma.apply(&t)));
    }
}

#[test]
fn gt_is_monotone_in_a_context() {
    for ord in both() {
        assert!(ord.gt(&g(a()), &a()));
        assert!(ord.gt(&f(b(), g(a())), &f(b(), a())));
        assert!(ord.gt(&g(f(b(), g(a()))), &g(f(b(), a()))));
    }
}

#[test]
fn precedence_by_arity_then_identifier() {
    // more arguments are greater; among constants the greater identifier
    assert!(Precedence::Arity.gt(&g(a()), &b()));
    assert!(Precedence::Arity.gt(&b(), &a()));
    assert!(!Precedence::Arity.gt(&a(), &b()));
    assert!(!Precedence::Arity.gt(&a(), &a()));
    // by identifier only, the constant 2 is below the function 4 and above 1
    assert!(Precedence::Identifier.gt(&g(a()), &f(a(), a())));
    assert!(!Precedence::Arity.gt(&g(a()), &f(a(), a())));
    // no variable has a precedence
    assert!(!Precedence::Arity.gt(&a(), &x()));
}

#[test]
fn truth_is_the_least_symbol() {
    let atom = Term::new_special_function(9, Vec::new());
    for ord in both() {
        assert!(ord.gt(&p(a()), &Term::new_truth()));
        assert!(ord.gt(&atom, &Term::new_truth()));
        assert!(ord.gt(&a(), &Term::new_truth()));
        assert!(!ord.gt(&Term::new_truth(), &a()));
    }
}

#[test]
fn lpo_compares_arguments_from_the_left() {
    let p = Precedence::Arity;
    assert!(lpo_gt(&p, &f(b(), a()), &f(a(), b())));
    assert!(!lpo_gt(&p, &f(a(), b()), &f(b(), a())));
    assert!(lpo_ge(&p, &f(a(), b()), &f(a(), b())));
    // a greater head symbol wins over larger arguments below it
    assert!(lpo_gt(&p, &f(a(), a()), &g(g(g(b())))));
}

#[test]
fn kbo_compares_weights_first() {
    let p = Precedence::Arity;
    let w = Weight::new(1);
    // g(g(g(b))) weighs four, f(a, a) three
    assert!(kbo_gt(&p, &w, 1, &g(g(g(b()))), &f(a(), a())));
    assert!(!kbo_gt(&p, &w, 1, &f(a(), a()), &g(g(g(b())))));
    // equal weights: the head symbols decide
    assert!(kbo_gt(&p, &w, 1, &g(b()), &g(a())));
    assert!(kbo_gt(&p, &w, 1, &f(a(), a()), &g(g(a()))));
}

#[test]
fn kbo_needs_every_variable_as_often() {
    let p = Precedence::Arity;
    let w = Weight::new(1);
    assert!(!kbo_gt(&p, &w, 1, &g(g(x())), &y()));
    assert!(!kbo_gt(&p, &w, 1, &g(g(x())), &f(x(), x())));
    assert!(kbo_gt(&p, &w, 1, &f(x(), g(x())), &f(x(), x())));
}

#[test]
fn kbo_with_weightless_variables_compares_nothing() {
    let p = Precedence::Arity;
    let w = Weight::new(1);
    assert!(!kbo_gt(&p, &w, 0, &g(a()), &a()));
}

#[test]
fn kbo_does_not_compare_terms_too_heavy_to_weigh() {
    let p = Precedence::Arity;
    let w = Weight::new(u64::MAX);
    assert!(!kbo_gt(&p, &w, 1, &g(a()), &a()));
}

fn eq(s: Term, t: Term) -> Literal {
    Literal::new(false, s, t)
}

fn neq(s: Term, t: Term) -> Literal {
    Literal::new(true, s, t)
}

#[test]
fn multiset_difference_counts_the_surplus() {
    // {s, t} against {s, s, t, t}
    assert_eq!(multiset_difference(&eq(a(), b()), &neq(a(), b())), (0, 0));
    assert_eq!(multiset_difference(&neq(a(), b()), &eq(a(), b())), (1, 1));
    // crosswise
    assert_eq!(multiset_difference(&neq(a(), b()), &eq(b(), a())), (1, 1));
    // both sides the same term: counted on the left side
    assert_eq!(multiset_difference(&eq(a(), a()), &eq(a(), b())), (1, 0));
    assert_eq!(multiset_difference(&neq(a(), a()), &eq(b(), b())), (4, 0));
    assert_eq!(multiset_difference(&eq(a(), b()), &eq(a(), a())), (0, 1));
    // nothing in common
    assert_eq!(multiset_difference(&eq(a(), b()), &eq(x(), y())), (1, 1));
}

#[test]
fn a_disequation_is_greater_than_the_equation() {
    for ord in both() {
        assert!(ord.gt_lit(&neq(a(), b()), &eq(a(), b())));
        assert!(!ord.gt_lit(&eq(a(), b()), &neq(a(), b())));
    }
}

#[test]
fn gt_lit_is_the_multiset_extension() {
    for ord in both() {
        // {g(a), a} > {a, b}: g(a) dominates b
        assert!(ord.gt_lit(&eq(g(a()), a()), &eq(a(), b())));
        // {a, b} is not greater than {g(a), a}
        assert!(!ord.gt_lit(&eq(a(), b()), &eq(g(a()), a())));
        // {g(a), b} > {a, b}
        assert!(ord.gt_lit(&eq(g(a()), b()), &eq(a(), b())));
        // incomparable terms: neither is greater
        assert!(!ord.gt_lit(&eq(x(), a()), &eq(y(), a())));
        assert!(!ord.gt_lit(&eq(y(), a()), &eq(x(), a())));
    }
}

#[test]
fn gt_lit_does_not_look_at_the_order_of_the_sides() {
    for ord in both() {
        let others = [eq(a(), b()), neq(g(a()), b()), eq(x(), g(x())), neq(a(), a())];
        let pairs = [(g(a()), b()), (a(), b()), (x(), g(y())), (f(a(), b()), g(b()))];
        for (s, t) in pairs.iter() {
            for negated in [false, true] {
                for other in others.iter() {
                    let l = Literal::new(negated, s.clone(), t.clone());
                    let flipped = Literal::new(negated, t.clone(), s.clone());
                    assert_eq!(ord.gt_lit(&l, other), ord.gt_lit(&flipped, other));
                    assert_eq!(ord.gt_lit(other, &l), ord.gt_lit(other, &flipped));
                    assert_eq!(ord.ge_lit(&l, other), ord.ge_lit(&flipped, other));
                }
            }
        }
    }
}

#[test]
fn ge_lit_holds_of_the_same_literal() {
    for ord in both() {
        assert!(ord.ge_lit(&eq(a(), b()), &eq(b(), a())));
        assert!(!ord.gt_lit(&eq(a(), b()), &eq(b(), a())));
        assert!(!ord.ge_lit(&eq(a(), b()), &neq(b(), a())));
    }
}

#[test]
fn compare_gives_one_of_four_answers() {
    for ord in both() {
        assert_eq!(ord.compare(&f(x(), a()), &f(x(), a())), Comparison::Equal);
        assert_eq!(ord.compare(&g(x()), &x()), Comparison::Greater);
        assert_eq!(ord.compare(&x(), &g(x())), Comparison::Less);
        assert_eq!(ord.compare(&g(x()), &y()), Comparison::Incomparable);
        assert_eq!(ord.compare(&x(), &y()), Comparison::Incomparable);
    }
}
