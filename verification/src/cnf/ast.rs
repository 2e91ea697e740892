//! Terms and formulae as a problem states them.
use crate::term::TermV;
use vstd::prelude::*;

verus! {

/// A term of a formula: a variable or a function symbol with arguments.
#[derive(Debug)]
pub enum Term {
    Variable(i64),
    Function(i64, Vec<Term>),
}

/// A formula. The predicate with the identifier 0 is equality.
#[derive(Debug)]
pub enum Formula {
    True,
    False,
    Predicate(i64, Vec<Term>),
    Not(Box<Formula>),
    And(Box<Formula>, Box<Formula>),
    Or(Box<Formula>, Box<Formula>),
    Implies(Box<Formula>, Box<Formula>),
    Equivalent(Box<Formula>, Box<Formula>),
    Forall(i64, Box<Formula>),
    Exists(i64, Box<Formula>),
}

/// The mathematical value of a formula.
pub enum FormulaV {
    True,
    False,
    Predicate(int, Seq<TermV>),
    Not(Box<FormulaV>),
    And(Box<FormulaV>, Box<FormulaV>),
    Or(Box<FormulaV>, Box<FormulaV>),
    Implies(Box<FormulaV>, Box<FormulaV>),
    Equivalent(Box<FormulaV>, Box<FormulaV>),
    Forall(int, Box<FormulaV>),
    Exists(int, Box<FormulaV>),
}

impl View for Term {
    type V = TermV;

    open spec fn view(&self) -> TermV
        decreases self,
    {
        match self {
            Term::Variable(id) => TermV::Var(*id as int),
            Term::Function(id, args) => TermV::Fun(
                *id as int,
                false,
                Seq::new(args.len() as nat, |i: int| if 0 <= i < args.len() { args[i]@ } else { TermV::Var(0) }),
            ),
        }
    }
}

/// The views of a sequence of terms.
pub open spec fn views(ts: Seq<Term>) -> Seq<TermV> {
    Seq::new(ts.len(), |i: int| ts[i]@)
}

/// The mathematical value of a formula.
pub open spec fn formula_view(f: Formula) -> FormulaV
    decreases f,
{
    match f {
        Formula::True => FormulaV::True,
        Formula::False => FormulaV::False,
        Formula::Predicate(id, args) => FormulaV::Predicate(id as int, views(args@)),
        Formula::Not(p) => FormulaV::Not(Box::new(formula_view(*p))),
        Formula::And(p, q) => FormulaV::And(Box::new(formula_view(*p)), Box::new(formula_view(*q))),
        Formula::Or(p, q) => FormulaV::Or(Box::new(formula_view(*p)), Box::new(formula_view(*q))),
        Formula::Implies(p, q) => FormulaV::Implies(
            Box::new(formula_view(*p)),
            Box::new(formula_view(*q)),
        ),
        Formula::Equivalent(p, q) => FormulaV::Equivalent(
            Box::new(formula_view(*p)),
            Box::new(formula_view(*q)),
        ),
        Formula::Forall(id, p) => FormulaV::Forall(id as int, Box::new(formula_view(*p))),
        Formula::Exists(id, p) => FormulaV::Exists(id as int, Box::new(formula_view(*p))),
    }
}

impl View for Formula {
    type V = FormulaV;

    open spec fn view(&self) -> FormulaV {
        formula_view(*self)
    }
}

/// The view of an application is the symbol applied to the views of the arguments.
pub proof fn lemma_function_view(id: i64, args: Vec<Term>)
    ensures
        Term::Function(id, args)@ == TermV::Fun(id as int, false, views(args@)),
{
    assert(Term::Function(id, args)@.args() =~= views(args@));
}

impl FormulaV {
    /// The number of connectives, quantifiers and atoms.
    pub open spec fn size(self) -> nat
        decreases self,
    {
        match self {
            FormulaV::True | FormulaV::False | FormulaV::Predicate(_, _) => 1,
            FormulaV::Not(p) => 1 + p.size(),
            FormulaV::And(p, q) | FormulaV::Or(p, q) | FormulaV::Implies(p, q) | FormulaV::Equivalent(
                p,
                q,
            ) => 1 + p.size() + q.size(),
            FormulaV::Forall(_, p) | FormulaV::Exists(_, p) => 1 + p.size(),
        }
    }
}

impl Clone for Term {
    fn clone(&self) -> (r: Term)
        ensures
            r@ == self@,
        decreases self,
    {
        match self {
            Term::Variable(id) => Term::Variable(*id),
            Term::Function(id, args) => {
                let out = clone_terms(args);
                proof {
                    lemma_function_view(*id, out);
                    lemma_function_view(*id, *args);
                }
                Term::Function(*id, out)
            },
        }
    }
}

/// A copy of the terms.
pub fn clone_terms(args: &Vec<Term>) -> (out: Vec<Term>)
    ensures
        views(out@) == views(args@),
    decreases args,
{
    let mut out: Vec<Term> = Vec::new();
    let n = args.len();
    let mut i: usize = 0;
    while i < n
        invariant
            0 <= i <= n,
            n == args.len(),
            out.len() == i,
            forall|j: int| 0 <= j < i ==> out[j]@ == args[j]@,
        decreases n - i,
    {
        out.push(args[i].clone());
        i += 1;
    }
    proof {
        assert(views(out@) =~= views(args@));
    }
    out
}

impl Clone for Formula {
    fn clone(&self) -> (r: Formula)
        ensures
            r@ == self@,
        decreases self,
    {
        match self {
            Formula::True => Formula::True,
            Formula::False => Formula::False,
            Formula::Predicate(id, args) => Formula::Predicate(*id, clone_terms(args)),
            Formula::Not(p) => Formula::Not(Box::new((**p).clone())),
            Formula::And(p, q) => Formula::And(Box::new((**p).clone()), Box::new((**q).clone())),
            Formula::Or(p, q) => Formula::Or(Box::new((**p).clone()), Box::new((**q).clone())),
            Formula::Implies(p, q) => Formula::Implies(
                Box::new((**p).clone()),
                Box::new((**q).clone()),
            ),
            Formula::Equivalent(p, q) => Formula::Equivalent(
                Box::new((**p).clone()),
                Box::new((**q).clone()),
            ),
            Formula::Forall(id, p) => Formula::Forall(*id, Box::new((**p).clone())),
            Formula::Exists(id, p) => Formula::Exists(*id, Box::new((**p).clone())),
        }
    }
}

} // verus!
