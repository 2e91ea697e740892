//! From a formula in conjunctive normal form to clauses.
use crate::clause::{Clause, ClauseV};
use crate::cnf::ast::{views, Formula, FormulaV, Term as CnfTerm};
use crate::literal::{Literal, LiteralV};
use crate::proof_search::entailment::clause_views;
use crate::term::{truth, views as prover_views, Term as ProverTerm, TermV};
use vstd::prelude::*;

verus! {

/// Whether every variable of the term is negative and every function symbol
/// is not.
pub open spec fn term_ok(t: TermV) -> bool
    decreases t,
{
    match t {
        TermV::Var(x) => x < 0,
        TermV::Fun(f, _, args) => f >= 0 && forall|i: int|
            0 <= i < args.len() ==> term_ok(#[trigger] args[i]),
    }
}

/// Whether an atom is in order: its predicate symbol is not negative, its
/// arguments are in order, and equality has two arguments.
pub open spec fn atom_ok(id: int, args: Seq<TermV>) -> bool {
    &&& id >= 0
    &&& id == 0 ==> args.len() == 2
    &&& forall|i: int| 0 <= i < args.len() ==> term_ok(#[trigger] args[i])
}

/// Whether the formula is a literal: a truth value, an atom or a negated atom.
pub open spec fn is_literal(f: FormulaV) -> bool {
    match f {
        FormulaV::True | FormulaV::False => true,
        FormulaV::Predicate(id, args) => atom_ok(id, args),
        FormulaV::Not(p) => match *p {
            FormulaV::Predicate(id, args) => atom_ok(id, args),
            _ => false,
        },
        _ => false,
    }
}

/// Whether the formula is a disjunction of literals.
pub open spec fn is_disjunction(f: FormulaV) -> bool
    decreases f,
{
    match f {
        FormulaV::Or(p, q) => is_disjunction(*p) && is_disjunction(*q),
        _ => is_literal(f),
    }
}

/// Whether the formula is in conjunctive normal form: a conjunction of
/// disjunctions of literals.
pub open spec fn is_cnf(f: FormulaV) -> bool
    decreases f,
{
    match f {
        FormulaV::And(p, q) => is_cnf(*p) && is_cnf(*q),
        _ => is_disjunction(f),
    }
}

/// The literal that stands for an atom or its negation: an equation or
/// disequation for equality, and otherwise the atom as a term of predicate
/// sort set equal or unequal to the truth constant.
pub open spec fn literal_spec(negated: bool, id: int, args: Seq<TermV>) -> LiteralV {
    if id == 0 {
        LiteralV { positive: !negated, lhs: args[0], rhs: args[1] }
    } else {
        LiteralV { positive: !negated, lhs: TermV::Fun(id, true, args), rhs: truth() }
    }
}

/// The literal that stands for a formula that is a literal. The truth
/// values become the equation and the disequation between the truth
/// constant and itself.
pub open spec fn formula_literal(f: FormulaV) -> LiteralV {
    match f {
        FormulaV::Predicate(id, args) => literal_spec(false, id, args),
        FormulaV::Not(p) => match *p {
            FormulaV::Predicate(id, args) => literal_spec(true, id, args),
            _ => LiteralV { positive: true, lhs: truth(), rhs: truth() },
        },
        FormulaV::False => LiteralV { positive: false, lhs: truth(), rhs: truth() },
        _ => LiteralV { positive: true, lhs: truth(), rhs: truth() },
    }
}

/// The clause of a disjunction of literals.
pub open spec fn collect_or_spec(f: FormulaV) -> ClauseV
    decreases f,
{
    match f {
        FormulaV::Or(p, q) => collect_or_spec(*p) + collect_or_spec(*q),
        _ => seq![formula_literal(f)],
    }
}

/// The clauses of a formula in conjunctive normal form, from left to right.
pub open spec fn collect_spec(f: FormulaV) -> Seq<ClauseV>
    decreases f,
{
    match f {
        FormulaV::And(p, q) => collect_spec(*p) + collect_spec(*q),
        _ => seq![collect_or_spec(f)],
    }
}

/// Checks that every variable of the term is negative and every function
/// symbol is not.
pub fn check_term(t: &CnfTerm) -> (r: bool)
    ensures
        r == term_ok(t@),
    decreases t,
{
    match t {
        CnfTerm::Variable(id) => *id < 0,
        CnfTerm::Function(id, args) => {
            let r = *id >= 0 && check_terms(args);
            proof {
                crate::cnf::ast::lemma_function_view(*id, *args);
                assert(t@ == TermV::Fun(*id as int, false, views(args@)));
                if r {
                    assert forall|i: int| 0 <= i < t@.args().len() implies term_ok(
                        #[trigger] t@.args()[i],
                    ) by {
                        assert(term_ok(views(args@)[i]));
                    }
                } else if *id >= 0 {
                    let i = choose|i: int|
                        0 <= i < args@.len() && !term_ok(#[trigger] views(args@)[i]);
                    assert(t@.args()[i] == views(args@)[i]);
                }
            }
            r
        },
    }
}

/// Checks that all the terms are in order.
pub fn check_terms(args: &Vec<CnfTerm>) -> (r: bool)
    ensures
        r == forall|i: int| 0 <= i < args@.len() ==> term_ok(#[trigger] views(args@)[i]),
    decreases args,
{
    let n = args.len();
    let mut i: usize = 0;
    while i < n
        invariant
            0 <= i <= n,
            n == args.len(),
            forall|j: int| 0 <= j < i ==> term_ok(#[trigger] views(args@)[j]),
        decreases n - i,
    {
        if !check_term(&args[i]) {
            proof {
                assert(!term_ok(views(args@)[i as int]));
            }
            return false;
        }
        i += 1;
    }
    true
}

/// Checks that an atom is in order.
fn check_atom(id: i64, args: &Vec<CnfTerm>) -> (r: bool)
    ensures
        r == atom_ok(id as int, views(args@)),
{
    id >= 0 && (id != 0 || args.len() == 2) && check_terms(args)
}

/// Checks that the formula is a disjunction of literals.
pub fn check_disjunction(f: &Formula) -> (r: bool)
    ensures
        r == is_disjunction(f@),
    decreases f,
{
    proof {
        reveal_with_fuel(crate::cnf::ast::formula_view, 2);
    }
    match f {
        Formula::Or(p, q) => check_disjunction(p) && check_disjunction(q),
        Formula::True | Formula::False => true,
        Formula::Predicate(id, args) => check_atom(*id, args),
        Formula::Not(p) => match &**p {
            Formula::Predicate(id, args) => check_atom(*id, args),
            _ => false,
        },
        _ => false,
    }
}

/// Checks that the formula is in conjunctive normal form.
pub fn check_cnf(f: &Formula) -> (r: bool)
    ensures
        r == is_cnf(f@),
    decreases f,
{
    match f {
        Formula::And(p, q) => check_cnf(p) && check_cnf(q),
        _ => check_disjunction(f),
    }
}

/// The clauses of a formula in conjunctive normal form, from left to right.
pub fn flatten_cnf(f: Formula) -> (r: Vec<Clause>)
    requires
        is_cnf(f@),
    ensures
        clause_views(r@) == collect_spec(f@),
{
    collect(f)
}

/// The clauses of a formula in conjunctive normal form.
fn collect(f: Formula) -> (r: Vec<Clause>)
    requires
        is_cnf(f@),
    ensures
        clause_views(r@) == collect_spec(f@),
    decreases f,
{
    match f {
        Formula::And(p, q) => {
            let mut left = collect(*p);
            let mut right = collect(*q);
            let ghost l = clause_views(left@);
            let ghost r = clause_views(right@);
            left.append(&mut right);
            proof {
                assert(clause_views(left@) =~= l + r);
            }
            left
        },
        _ => {
            let c = collect_or(f);
            let mut out: Vec<Clause> = Vec::new();
            out.push(c);
            proof {
                assert(clause_views(out@) =~= seq![c@]);
            }
            out
        },
    }
}

/// The clause of a disjunction of literals.
fn collect_or(f: Formula) -> (r: Clause)
    requires
        is_disjunction(f@),
    ensures
        r@ == collect_or_spec(f@),
    decreases f,
{
    proof {
        reveal_with_fuel(crate::cnf::ast::formula_view, 2);
    }
    match f {
        Formula::Predicate(s, args) => {
            let mut lits: Vec<Literal> = Vec::new();
            lits.push(create_literal(false, s, args));
            let c = Clause::new_from_vec(lits);
            proof {
                assert(c@ =~= collect_or_spec(f@));
            }
            c
        },
        Formula::Not(p) => match *p {
            Formula::Predicate(s, args) => {
                let mut lits: Vec<Literal> = Vec::new();
                lits.push(create_literal(true, s, args));
                let c = Clause::new_from_vec(lits);
                proof {
                    assert(c@ =~= collect_or_spec(f@));
                }
                c
            },
            _ => Clause::new(),
        },
        Formula::Or(p, q) => {
            let mut left = collect_or(*p);
            left.add_literals(collect_or(*q));
            left
        },
        Formula::False => {
            let mut lits: Vec<Literal> = Vec::new();
            lits.push(Literal::new(true, ProverTerm::new_truth(), ProverTerm::new_truth()));
            let c = Clause::new_from_vec(lits);
            proof {
                assert(c@ =~= collect_or_spec(f@));
            }
            c
        },
        _ => {
            let mut lits: Vec<Literal> = Vec::new();
            lits.push(Literal::new(false, ProverTerm::new_truth(), ProverTerm::new_truth()));
            let c = Clause::new_from_vec(lits);
            proof {
                assert(c@ =~= collect_or_spec(f@));
            }
            c
        },
    }
}

/// The literal that stands for an atom or, where `negated`, its negation.
fn create_literal(negated: bool, id: i64, args: Vec<CnfTerm>) -> (l: Literal)
    requires
        atom_ok(id as int, views(args@)),
    ensures
        l@ == literal_spec(negated, id as int, views(args@)),
{
    if id == 0 {
        proof {
            assert(term_ok(views(args@)[0]));
            assert(term_ok(views(args@)[1]));
        }
        Literal::new(negated, create_term(&args[0], false), create_term(&args[1], false))
    } else {
        let new_args = create_terms(&args);
        Literal::new(negated, ProverTerm::new_special_function(id, new_args), ProverTerm::new_truth())
    }
}

/// The terms of the prover that stand for the terms of a formula.
fn create_terms(args: &Vec<CnfTerm>) -> (out: Vec<ProverTerm>)
    requires
        forall|i: int| 0 <= i < args@.len() ==> term_ok(#[trigger] views(args@)[i]),
    ensures
        prover_views(out@) == views(args@),
    decreases args,
{
    let mut out: Vec<ProverTerm> = Vec::new();
    let n = args.len();
    let mut i: usize = 0;
    while i < n
        invariant
            0 <= i <= n,
            n == args.len(),
            out.len() == i,
            forall|i: int| 0 <= i < args@.len() ==> term_ok(#[trigger] views(args@)[i]),
            forall|j: int| 0 <= j < i ==> out[j]@ == args[j]@,
        decreases n - i,
    {
        proof {
            assert(term_ok(views(args@)[i as int]));
        }
        out.push(create_term(&args[i], false));
        i += 1;
    }
    proof {
        assert(prover_views(out@) =~= views(args@));
    }
    out
}

/// The term of the prover that stands for a term of a formula; its head
/// symbol is of predicate sort where `special_fn`.
fn create_term(t: &CnfTerm, special_fn: bool) -> (r: ProverTerm)
    requires
        term_ok(t@),
    ensures
        r@ == match t@ {
            TermV::Var(x) => t@,
            TermV::Fun(f, _, args) => TermV::Fun(f, special_fn, args),
        },
    decreases t,
{
    match t {
        CnfTerm::Variable(id) => ProverTerm::new_variable(*id),
        CnfTerm::Function(id, args) => {
            proof {
                crate::cnf::ast::lemma_function_view(*id, *args);
            }
            let new_args = create_terms(args);
            if special_fn {
                ProverTerm::new_special_function(*id, new_args)
            } else {
                ProverTerm::new_function(*id, new_args)
            }
        },
    }
}

} // verus!
