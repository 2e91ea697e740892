//! What a problem in the TPTP language holds.
use vstd::prelude::*;

verus! {

/// A term: a variable or a function symbol with arguments. Numbers and
/// distinct objects are function symbols without arguments.
#[derive(Debug, PartialEq, Eq)]
pub enum Term {
    Variable(String),
    Function(String, Vec<Term>),
}

/// A formula. Equality is the predicate with the name `=`.
#[derive(Debug, PartialEq, Eq)]
pub enum Formula {
    Predicate(String, Vec<Term>),
    Not(Box<Formula>),
    And(Box<Formula>, Box<Formula>),
    Or(Box<Formula>, Box<Formula>),
    Implies(Box<Formula>, Box<Formula>),
    Equivalent(Box<Formula>, Box<Formula>),
    Forall(String, Box<Formula>),
    Exists(String, Box<Formula>),
}

/// A formula with its name and its role, in clause normal form or in full
/// first-order form.
#[derive(Debug, PartialEq, Eq)]
pub enum AnnotatedFormula {
    Cnf((String, String, Formula)),
    Fof((String, String, Formula)),
}

/// The file to include and, where only some are wanted, the names of the
/// formulae to take from it.
pub type Include = (String, Option<Vec<String>>);

/// One entry of a problem.
#[derive(Debug, PartialEq, Eq)]
pub enum TptpInput {
    AnnForm(AnnotatedFormula),
    Incl(Include),
}

/// The mathematical value of a term: names are sequences of characters.
pub enum TermT {
    Variable(Seq<char>),
    Function(Seq<char>, Seq<TermT>),
}

/// The mathematical value of a formula.
pub enum FormulaT {
    Predicate(Seq<char>, Seq<TermT>),
    Not(Box<FormulaT>),
    And(Box<FormulaT>, Box<FormulaT>),
    Or(Box<FormulaT>, Box<FormulaT>),
    Implies(Box<FormulaT>, Box<FormulaT>),
    Equivalent(Box<FormulaT>, Box<FormulaT>),
    Forall(Seq<char>, Box<FormulaT>),
    Exists(Seq<char>, Box<FormulaT>),
}

/// The mathematical value of an entry of a problem: a formula in clause
/// normal form or in full first-order form with its name and role, or a
/// file to include with the names to take from it.
pub enum EntryT {
    Clause(Seq<char>, Seq<char>, FormulaT),
    Formula(Seq<char>, Seq<char>, FormulaT),
    Include(Seq<char>, Option<Seq<Seq<char>>>),
}

impl View for Term {
    type V = TermT;

    open spec fn view(&self) -> TermT
        decreases self,
    {
        match self {
            Term::Variable(name) => TermT::Variable(name@),
            Term::Function(name, args) => TermT::Function(
                name@,
                Seq::new(
                    args.len() as nat,
                    |i: int|
                        if 0 <= i < args.len() {
                            args[i]@
                        } else {
                            TermT::Variable(Seq::empty())
                        },
                ),
            ),
        }
    }
}

/// The values of terms.
pub open spec fn term_views(ts: Seq<Term>) -> Seq<TermT> {
    Seq::new(ts.len(), |i: int| ts[i]@)
}

/// The value of an application is the symbol with the values of the arguments.
pub proof fn lemma_function_view(name: String, args: Vec<Term>)
    ensures
        Term::Function(name, args)@ == TermT::Function(name@, term_views(args@)),
{
    assert(Term::Function(name, args)@->Function_1 =~= term_views(args@));
}

/// The mathematical value of a formula.
pub open spec fn formula_view(f: Formula) -> FormulaT
    decreases f,
{
    match f {
        Formula::Predicate(name, args) => FormulaT::Predicate(name@, term_views(args@)),
        Formula::Not(p) => FormulaT::Not(Box::new(formula_view(*p))),
        Formula::And(p, q) => FormulaT::And(Box::new(formula_view(*p)), Box::new(formula_view(*q))),
        Formula::Or(p, q) => FormulaT::Or(Box::new(formula_view(*p)), Box::new(formula_view(*q))),
        Formula::Implies(p, q) => FormulaT::Implies(
            Box::new(formula_view(*p)),
            Box::new(formula_view(*q)),
        ),
        Formula::Equivalent(p, q) => FormulaT::Equivalent(
            Box::new(formula_view(*p)),
            Box::new(formula_view(*q)),
        ),
        Formula::Forall(x, p) => FormulaT::Forall(x@, Box::new(formula_view(*p))),
        Formula::Exists(x, p) => FormulaT::Exists(x@, Box::new(formula_view(*p))),
    }
}

impl View for Formula {
    type V = FormulaT;

    open spec fn view(&self) -> FormulaT {
        formula_view(*self)
    }
}

/// The texts as sequences of characters.
pub open spec fn texts(v: Seq<String>) -> Seq<Seq<char>> {
    Seq::new(v.len(), |i: int| v[i]@)
}

/// The mathematical value of an entry.
pub open spec fn entry_view(e: TptpInput) -> EntryT {
    match e {
        TptpInput::AnnForm(AnnotatedFormula::Cnf(f)) => EntryT::Clause(f.0@, f.1@, f.2@),
        TptpInput::AnnForm(AnnotatedFormula::Fof(f)) => EntryT::Formula(f.0@, f.1@, f.2@),
        TptpInput::Incl(i) => EntryT::Include(
            i.0@,
            match i.1 {
                Some(names) => Some(texts(names@)),
                None => None,
            },
        ),
    }
}

/// The values of entries.
pub open spec fn entries(v: Seq<TptpInput>) -> Seq<EntryT> {
    Seq::new(v.len(), |i: int| entry_view(v[i]))
}

/// A copy of the terms.
fn clone_terms(args: &Vec<Term>) -> (out: Vec<Term>)
    ensures
        term_views(out@) == term_views(args@),
    decreases args,
{
    let mut out: Vec<Term> = Vec::new();
    let n = args.len();
    let mut i: usize = 0;
    while i < n
        invariant
            0 <= i <= n,
            n == args.len(),
            out.len() == i,
            forall|k: int| 0 <= k < i ==> out[k]@ == args[k]@,
        decreases n - i,
    {
        out.push(args[i].clone());
        i += 1;
    }
    proof {
        assert(term_views(out@) =~= term_views(args@));
    }
    out
}

impl Clone for Term {
    fn clone(&self) -> (r: Term)
        ensures
            r@ == self@,
        decreases self,
    {
        match self {
            Term::Variable(name) => Term::Variable(name.clone()),
            Term::Function(name, args) => {
                let copy = clone_terms(args);
                let r = Term::Function(name.clone(), copy);
                proof {
                    lemma_function_view(*name, *args);
                    lemma_function_view(r->Function_0, r->Function_1);
                }
                r
            },
        }
    }
}

impl Clone for Formula {
    fn clone(&self) -> (r: Formula)
        ensures
            r@ == self@,
        decreases self,
    {
        match self {
            Formula::Predicate(name, args) => Formula::Predicate(name.clone(), clone_terms(args)),
            Formula::Not(p) => Formula::Not(Box::new((**p).clone())),
            Formula::And(p, q) => Formula::And(Box::new((**p).clone()), Box::new((**q).clone())),
            Formula::Or(p, q) => Formula::Or(Box::new((**p).clone()), Box::new((**q).clone())),
            Formula::Implies(p, q) => Formula::Implies(
                Box::new((**p).clone()),
                Box::new((**q).clone()),
            ),
            Formula::Equivalent(p, q) => Formula::Equivalent(
                Box::new((**p).clone()),
                Box::new((**q).clone()),
            ),
            Formula::Forall(x, p) => Formula::Forall(x.clone(), Box::new((**p).clone())),
            Formula::Exists(x, p) => Formula::Exists(x.clone(), Box::new((**p).clone())),
        }
    }
}

/// The mathematical value of a formula with its name and role.
pub open spec fn formula_entry(af: AnnotatedFormula) -> EntryT {
    entry_view(TptpInput::AnnForm(af))
}

/// The values of formulae with their names and roles.
pub open spec fn formula_entries(v: Seq<AnnotatedFormula>) -> Seq<EntryT> {
    Seq::new(v.len(), |i: int| formula_entry(v[i]))
}

impl Clone for AnnotatedFormula {
    fn clone(&self) -> (r: AnnotatedFormula)
        ensures
            formula_entry(r) == formula_entry(*self),
    {
        match self {
            AnnotatedFormula::Cnf(f) => AnnotatedFormula::Cnf(
                (f.0.clone(), f.1.clone(), f.2.clone()),
            ),
            AnnotatedFormula::Fof(f) => AnnotatedFormula::Fof(
                (f.0.clone(), f.1.clone(), f.2.clone()),
            ),
        }
    }
}

} // verus!
