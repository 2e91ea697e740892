use serkr::clause::Clause;
use serkr::clause_selection::clause_weight::ClauseWeight;
use serkr::clause_selection::passive::PassiveSet;
use serkr::literal::Literal;
use serkr::term::Term;

fn a() -> Term {
    Term::new_function(1, Vec::new())
}

fn g(s: Term) -> Term {
    Term::new_function(4, vec![s])
}

fn unit(s: Term, t: Term) -> Clause {
    Clause::new_from_vec(vec![Literal::new(false, s, t)])
}

fn nest(depth: usize) -> Term {
    let mut t = a();
    for _ in 0..depth {
        t = g(t);
    }
    t
}

#[test]
fn weights_of_a_clause() {
    let mut cl = unit(g(Term::new_variable(-1)), a());
    cl.set_id(9);
    assert_eq!(ClauseWeight::new_size_weight(&cl, 2, 1), ClauseWeight::Size(9, 5));
    assert_eq!(ClauseWeight::new_size_weight(&cl, 1, 1), ClauseWeight::Size(9, 3));
    assert_eq!(ClauseWeight::new_age_weight(&cl), ClauseWeight::Age(9));
    assert_eq!(ClauseWeight::Size(9, 5).get_id(), 9);
    assert_eq!(ClauseWeight::Age(4).get_id(), 4);
}

#[test]
fn smaller_and_older_clauses_come_first() {
    assert!(ClauseWeight::Size(7, 3).precedes(&ClauseWeight::Size(1, 4)));
    assert!(!ClauseWeight::Size(1, 4).precedes(&ClauseWeight::Size(7, 3)));
    // equal symbol counts: the smaller ID
    assert!(ClauseWeight::Size(1, 3).precedes(&ClauseWeight::Size(2, 3)));
    assert!(!ClauseWeight::Size(2, 3).precedes(&ClauseWeight::Size(1, 3)));
    assert!(!ClauseWeight::Size(2, 3).precedes(&ClauseWeight::Size(2, 3)));
    assert!(ClauseWeight::Age(1).precedes(&ClauseWeight::Age(2)));
    assert!(!ClauseWeight::Age(2).precedes(&ClauseWeight::Age(1)));
}

#[test]
fn clauses_get_their_ids_in_the_order_in_which_they_come() {
    let mut passive = PassiveSet::new(5, 2, 1);
    assert!(passive.is_empty());
    assert!(passive.pop_best().is_none());
    passive.push(unit(nest(3), a()));
    passive.push(unit(nest(1), a()));
    passive.push(unit(nest(2), a()));
    assert_eq!(passive.len(), 3);
    assert!(passive.has_room());
    // by size: the second, the third, the first
    assert_eq!(passive.pop_best().unwrap().get_id(), 1);
    assert_eq!(passive.pop_best().unwrap().get_id(), 2);
    assert_eq!(passive.pop_best().unwrap().get_id(), 0);
    assert!(passive.pop_best().is_none());
}

#[test]
fn every_third_choice_is_by_age_with_a_ratio_of_two() {
    let mut passive = PassiveSet::new(2, 2, 1);
    // the oldest clause is the largest
    for depth in [9, 1, 2, 3, 4, 5] {
        passive.push(unit(nest(depth), a()));
    }
    let mut order = Vec::new();
    while let Some(c) = passive.pop_best() {
        order.push(c.get_id());
    }
    // size, size, age, size, size, age
    assert_eq!(order, vec![1, 2, 0, 3, 4, 5]);
}

#[test]
fn a_large_old_clause_is_chosen_although_smaller_ones_keep_coming() {
    let ratio: u64 = 3;
    let mut passive = PassiveSet::new(ratio, 2, 1);
    passive.push(unit(nest(50), a()));
    let mut choices = 0;
    loop {
        // a smaller clause comes before every choice
        passive.push(unit(nest(1), a()));
        choices += 1;
        if passive.pop_best().unwrap().get_id() == 0 {
            break;
        }
        assert!(choices <= ratio + 1);
    }
    // nothing was older, so the bound is one round of turns
    assert_eq!(choices, ratio + 1);
}

#[test]
fn with_a_ratio_of_zero_every_choice_is_by_age() {
    let mut passive = PassiveSet::new(0, 2, 1);
    for depth in [3, 1, 2] {
        passive.push(unit(nest(depth), a()));
    }
    assert_eq!(passive.pop_best().unwrap().get_id(), 0);
    assert_eq!(passive.pop_best().unwrap().get_id(), 1);
    assert_eq!(passive.pop_best().unwrap().get_id(), 2);
}
