//! From a problem in the TPTP language to the clauses of a proof search.
use crate::clause::{Clause, ClauseV};
use crate::cnf::ast::{views, Formula, FormulaV, Term};
use crate::cnf::naive_cnf::{cnf, cnf_spec, counters_left, enough_names};
use crate::cnf::renaming_info::RenamingInfo;
use crate::flatten_cnf::{check_cnf, collect_spec, flatten_cnf, is_cnf};
use crate::ordering::precedence::Precedence;
use crate::ordering::term_ordering::TermOrdering;
use crate::ordering::weight::Weight;
use crate::parser::grammar::interned;
use crate::parser::internal_parser::{bytes_of, intern, names, SymbolTable, MAX_NAMES};
use crate::proof_search::entailment::clause_views;
use crate::proof_search::saturation::{starts_with, ProofState};
use crate::resolution::{counters_after, PICK_RATIO, REWRITE_STEPS};
use crate::term::TermV;
use crate::simplification::tautology_deletion::{is_tautology, trivial};
use crate::tptp_parser::ast::{
    term_views, AnnotatedFormula, Formula as TptpFormula, FormulaT, Term as TptpTerm, TermT,
};
use crate::tptp_parser::parser::is_word;
use vstd::prelude::*;
use vstd::utf8::encode_utf8;

verus! {

/// Why a problem could not be brought to clauses.
#[derive(Debug, Clone, Copy, PartialEq, Eq)]
pub enum ProblemError {
    /// There are more names than can be numbered.
    TooManyNames,
    /// A formula did not come out in conjunctive normal form.
    NotNormal,
}

/// The term with numbers in place of names: a name gets the place that it
/// has among the names that were met, the symbol of an application before
/// its arguments. There is none where the names are full.
pub open spec fn term_numbered(t: TermT, symbols: Seq<Seq<u8>>, variables: Seq<Seq<u8>>) -> Option<
    (TermV, Seq<Seq<u8>>, Seq<Seq<u8>>),
>
    decreases t, 0int,
{
    match t {
        TermT::Variable(name) => match interned(variables, encode_utf8(name)) {
            None => None,
            Some((i, variables)) => Some((TermV::Var(-i - 1), symbols, variables)),
        },
        TermT::Function(name, args) => match interned(symbols, encode_utf8(name)) {
            None => None,
            Some((i, symbols)) => match terms_numbered(
                args,
                0,
                Seq::empty(),
                symbols,
                variables,
            ) {
                None => None,
                Some((args, symbols, variables)) => Some(
                    (TermV::Fun(i + 1, false, args), symbols, variables),
                ),
            },
        },
    }
}

/// The terms from place `k` on with numbers in place of names, after the
/// terms `before`.
pub open spec fn terms_numbered(
    ts: Seq<TermT>,
    k: int,
    before: Seq<TermV>,
    symbols: Seq<Seq<u8>>,
    variables: Seq<Seq<u8>>,
) -> Option<(Seq<TermV>, Seq<Seq<u8>>, Seq<Seq<u8>>)>
    decreases ts, ts.len() - k,
{
    if k < 0 || k >= ts.len() {
        Some((before, symbols, variables))
    } else {
        match term_numbered(ts[k], symbols, variables) {
            None => None,
            Some((t, symbols, variables)) => terms_numbered(
                ts,
                k + 1,
                before.push(t),
                symbols,
                variables,
            ),
        }
    }
}

/// The term with identifiers in place of names.
pub fn convert_term(t: &TptpTerm, table: &mut SymbolTable) -> (r: Option<Term>)
    requires
        old(table).symbols.len() <= MAX_NAMES,
        old(table).variables.len() <= MAX_NAMES,
    ensures
        final(table).symbols.len() <= MAX_NAMES,
        final(table).variables.len() <= MAX_NAMES,
        match term_numbered(t@, names(old(table).symbols@), names(old(table).variables@)) {
            Some((v, symbols, variables)) => r matches Some(x) && x@ == v && names(
                final(table).symbols@,
            ) == symbols && names(final(table).variables@) == variables,
            None => r is None,
        },
    decreases t,
{
    match t {
        TptpTerm::Variable(name) => match intern(&mut table.variables, bytes_of(name.as_str())) {
            Some(i) => Some(Term::Variable(-(i as i64) - 1)),
            None => None,
        },
        TptpTerm::Function(name, args) => {
            proof {
                crate::tptp_parser::ast::lemma_function_view(*name, *args);
            }
            let id = match intern(&mut table.symbols, bytes_of(name.as_str())) {
                Some(i) => i as i64 + 1,
                None => {
                    return None;
                },
            };
            match convert_terms(args, table) {
                Some(a) => {
                    proof {
                        crate::cnf::ast::lemma_function_view(id, a);
                    }
                    Some(Term::Function(id, a))
                },
                None => None,
            }
        },
    }
}

/// The terms with identifiers in place of names.
pub fn convert_terms(args: &Vec<TptpTerm>, table: &mut SymbolTable) -> (r: Option<Vec<Term>>)
    requires
        old(table).symbols.len() <= MAX_NAMES,
        old(table).variables.len() <= MAX_NAMES,
    ensures
        final(table).symbols.len() <= MAX_NAMES,
        final(table).variables.len() <= MAX_NAMES,
        match terms_numbered(
            term_views(args@),
            0,
            Seq::empty(),
            names(old(table).symbols@),
            names(old(table).variables@),
        ) {
            Some((v, symbols, variables)) => r matches Some(x) && views(x@) == v && names(
                final(table).symbols@,
            ) == symbols && names(final(table).variables@) == variables,
            None => r is None,
        },
    decreases args,
{
    let mut out: Vec<Term> = Vec::new();
    let n = args.len();
    let mut i: usize = 0;
    let ghost goal = terms_numbered(
        term_views(args@),
        0,
        Seq::empty(),
        names(table.symbols@),
        names(table.variables@),
    );
    proof {
        assert(views(out@) =~= Seq::<TermV>::empty());
    }
    while i < n
        invariant
            0 <= i <= n,
            n == args.len(),
            table.symbols.len() <= MAX_NAMES,
            table.variables.len() <= MAX_NAMES,
            terms_numbered(
                term_views(args@),
                i as int,
                views(out@),
                names(table.symbols@),
                names(table.variables@),
            ) == goal,
            terms_numbered(
                term_views(args@),
                0,
                Seq::empty(),
                names(old(table).symbols@),
                names(old(table).variables@),
            ) == goal,
        decreases n - i,
    {
        let ghost before = views(out@);
        match convert_term(&args[i], table) {
            Some(t) => {
                out.push(t);
                proof {
                    assert(views(out@) =~= before.push(t@));
                }
            },
            None => {
                return None;
            },
        }
        i += 1;
    }
    Some(out)
}

/// The formula with numbers in place of names. The predicate `=` with two
/// arguments is equality, which has the number 0; `$true` and `$false`
/// without arguments are the truth values. A bound variable gets its number
/// before the names of the formula that it is bound in, and the left side
/// of a connective is numbered before the right side.
pub open spec fn formula_numbered(
    f: FormulaT,
    symbols: Seq<Seq<u8>>,
    variables: Seq<Seq<u8>>,
) -> Option<(FormulaV, Seq<Seq<u8>>, Seq<Seq<u8>>)>
    decreases f,
{
    match f {
        FormulaT::Predicate(name, args) => if args.len() == 0 && name == "$true"@ {
            Some((FormulaV::True, symbols, variables))
        } else if args.len() == 0 && name == "$false"@ {
            Some((FormulaV::False, symbols, variables))
        } else if args.len() == 2 && name == "="@ {
            match terms_numbered(args, 0, Seq::empty(), symbols, variables) {
                None => None,
                Some((args, symbols, variables)) => Some(
                    (FormulaV::Predicate(0, args), symbols, variables),
                ),
            }
        } else {
            match interned(symbols, encode_utf8(name)) {
                None => None,
                Some((i, symbols)) => match terms_numbered(
                    args,
                    0,
                    Seq::empty(),
                    symbols,
                    variables,
                ) {
                    None => None,
                    Some((args, symbols, variables)) => Some(
                        (FormulaV::Predicate(i + 1, args), symbols, variables),
                    ),
                },
            }
        },
        FormulaT::Not(p) => match formula_numbered(*p, symbols, variables) {
            None => None,
            Some((p, symbols, variables)) => Some((FormulaV::Not(Box::new(p)), symbols, variables)),
        },
        FormulaT::And(p, q) => match formula_numbered(*p, symbols, variables) {
            None => None,
            Some((p, symbols, variables)) => match formula_numbered(*q, symbols, variables) {
                None => None,
                Some((q, symbols, variables)) => Some(
                    (FormulaV::And(Box::new(p), Box::new(q)), symbols, variables),
                ),
            },
        },
        FormulaT::Or(p, q) => match formula_numbered(*p, symbols, variables) {
            None => None,
            Some((p, symbols, variables)) => match formula_numbered(*q, symbols, variables) {
                None => None,
                Some((q, symbols, variables)) => Some(
                    (FormulaV::Or(Box::new(p), Box::new(q)), symbols, variables),
                ),
            },
        },
        FormulaT::Implies(p, q) => match formula_numbered(*p, symbols, variables) {
            None => None,
            Some((p, symbols, variables)) => match formula_numbered(*q, symbols, variables) {
                None => None,
                Some((q, symbols, variables)) => Some(
                    (FormulaV::Implies(Box::new(p), Box::new(q)), symbols, variables),
                ),
            },
        },
        FormulaT::Equivalent(p, q) => match formula_numbered(*p, symbols, variables) {
            None => None,
            Some((p, symbols, variables)) => match formula_numbered(*q, symbols, variables) {
                None => None,
                Some((q, symbols, variables)) => Some(
                    (FormulaV::Equivalent(Box::new(p), Box::new(q)), symbols, variables),
                ),
            },
        },
        FormulaT::Forall(x, p) => match interned(variables, encode_utf8(x)) {
            None => None,
            Some((i, variables)) => match formula_numbered(*p, symbols, variables) {
                None => None,
                Some((p, symbols, variables)) => Some(
                    (FormulaV::Forall(-i - 1, Box::new(p)), symbols, variables),
                ),
            },
        },
        FormulaT::Exists(x, p) => match interned(variables, encode_utf8(x)) {
            None => None,
            Some((i, variables)) => match formula_numbered(*p, symbols, variables) {
                None => None,
                Some((p, symbols, variables)) => Some(
                    (FormulaV::Exists(-i - 1, Box::new(p)), symbols, variables),
                ),
            },
        },
    }
}

/// The formula with identifiers in place of names. The predicate `=` with
/// two arguments is equality; `$true` and `$false` are the truth values.
pub fn convert_formula(f: &TptpFormula, table: &mut SymbolTable) -> (r: Option<Formula>)
    requires
        old(table).symbols.len() <= MAX_NAMES,
        old(table).variables.len() <= MAX_NAMES,
    ensures
        final(table).symbols.len() <= MAX_NAMES,
        final(table).variables.len() <= MAX_NAMES,
        match formula_numbered(f@, names(old(table).symbols@), names(old(table).variables@)) {
            Some((v, symbols, variables)) => r matches Some(x) && x@ == v && names(
                final(table).symbols@,
            ) == symbols && names(final(table).variables@) == variables,
            None => r is None,
        },
    decreases f,
{
    match f {
        TptpFormula::Predicate(name, args) => {
            if args.len() == 0 && is_word(name, "$true") {
                return Some(Formula::True);
            }
            if args.len() == 0 && is_word(name, "$false") {
                return Some(Formula::False);
            }
            let id = if args.len() == 2 && is_word(name, "=") {
                0
            } else {
                match intern(&mut table.symbols, bytes_of(name.as_str())) {
                    Some(i) => i as i64 + 1,
                    None => {
                        return None;
                    },
                }
            };
            match convert_terms(args, table) {
                Some(a) => Some(Formula::Predicate(id, a)),
                None => None,
            }
        },
        TptpFormula::Not(p) => match convert_formula(p, table) {
            Some(left) => Some(Formula::Not(Box::new(left))),
            None => None,
        },
        TptpFormula::And(p, q) => match convert_formula(p, table) {
            Some(left) => match convert_formula(q, table) {
                Some(right) => Some(Formula::And(Box::new(left), Box::new(right))),
                None => None,
            },
            None => None,
        },
        TptpFormula::Or(p, q) => match convert_formula(p, table) {
            Some(left) => match convert_formula(q, table) {
                Some(right) => Some(Formula::Or(Box::new(left), Box::new(right))),
                None => None,
            },
            None => None,
        },
        TptpFormula::Implies(p, q) => match convert_formula(p, table) {
            Some(left) => match convert_formula(q, table) {
                Some(right) => Some(Formula::Implies(Box::new(left), Box::new(right))),
                None => None,
            },
            None => None,
        },
        TptpFormula::Equivalent(p, q) => match convert_formula(p, table) {
            Some(left) => match convert_formula(q, table) {
                Some(right) => Some(Formula::Equivalent(Box::new(left), Box::new(right))),
                None => None,
            },
            None => None,
        },
        TptpFormula::Forall(x, p) => {
            let id = match intern(&mut table.variables, bytes_of(x.as_str())) {
                Some(i) => -(i as i64) - 1,
                None => {
                    return None;
                },
            };
            match convert_formula(p, table) {
                Some(left) => Some(Formula::Forall(id, Box::new(left))),
                None => None,
            }
        },
        TptpFormula::Exists(x, p) => {
            let id = match intern(&mut table.variables, bytes_of(x.as_str())) {
                Some(i) => -(i as i64) - 1,
                None => {
                    return None;
                },
            };
            match convert_formula(p, table) {
                Some(left) => Some(Formula::Exists(id, Box::new(left))),
                None => None,
            }
        },
    }
}

/// The role of a formula.
pub open spec fn role_of(af: AnnotatedFormula) -> Seq<char> {
    match af {
        AnnotatedFormula::Cnf(f) => f.1@,
        AnnotatedFormula::Fof(f) => f.1@,
    }
}

/// What a formula states.
pub open spec fn body_of(af: AnnotatedFormula) -> FormulaT {
    match af {
        AnnotatedFormula::Cnf(f) => f.2@,
        AnnotatedFormula::Fof(f) => f.2@,
    }
}

/// Whether the formula is a conjecture, which is negated before its
/// clauses are added.
pub fn is_conjecture(af: &AnnotatedFormula) -> (r: bool)
    ensures
        r == (role_of(*af) == "conjecture"@),
{
    match af {
        AnnotatedFormula::Cnf(f) => is_word(&f.1, "conjecture"),
        AnnotatedFormula::Fof(f) => is_word(&f.1, "conjecture"),
    }
}

/// What a formula of a problem adds to what is refuted: a conjecture its
/// negation, any other formula itself.
pub open spec fn assumed(conjecture: bool, f: FormulaV) -> FormulaV {
    if conjecture {
        FormulaV::Not(Box::new(f))
    } else {
        f
    }
}

/// The formulae of a problem from place `k` on with numbers in place of
/// names, conjectures negated, after the formulae `before`.
pub open spec fn formulas_numbered(
    fs: Seq<AnnotatedFormula>,
    k: int,
    before: Seq<FormulaV>,
    symbols: Seq<Seq<u8>>,
    variables: Seq<Seq<u8>>,
) -> Option<(Seq<FormulaV>, Seq<Seq<u8>>, Seq<Seq<u8>>)>
    decreases fs.len() - k,
{
    if k < 0 || k >= fs.len() {
        Some((before, symbols, variables))
    } else {
        match formula_numbered(body_of(fs[k]), symbols, variables) {
            None => None,
            Some((f, symbols, variables)) => formulas_numbered(
                fs,
                k + 1,
                before.push(assumed(role_of(fs[k]) == "conjecture"@, f)),
                symbols,
                variables,
            ),
        }
    }
}

/// The clauses `before` and then those of `cs` that are no tautologies,
/// from the last to the first.
pub open spec fn kept(cs: Seq<ClauseV>, before: Seq<ClauseV>) -> Seq<ClauseV>
    decreases cs.len(),
{
    if cs.len() == 0 {
        before
    } else if is_tautology(cs.last()) {
        kept(cs.drop_last(), before)
    } else {
        kept(cs.drop_last(), before.push(cs.last()))
    }
}

/// The clauses `before` and then those of the formulae, from the last
/// formula to the first: each formula is brought to conjunctive normal
/// form with the names that the formulae after it left, and its clauses
/// that are no tautologies are kept.
pub open spec fn clauses_from(fs: Seq<FormulaV>, ri: RenamingInfo, before: Seq<ClauseV>) -> Result<
    Seq<ClauseV>,
    ProblemError,
>
    decreases fs.len(),
{
    if fs.len() == 0 {
        Ok(before)
    } else if !enough_names(fs.last(), ri) {
        Err(ProblemError::TooManyNames)
    } else if !is_cnf(cnf_spec(fs.last(), ri)) {
        Err(ProblemError::NotNormal)
    } else {
        clauses_from(
            fs.drop_last(),
            counters_left(fs.last(), ri),
            kept(collect_spec(cnf_spec(fs.last(), ri)), before),
        )
    }
}

/// The clauses of a problem.
pub open spec fn clausified(fs: Seq<AnnotatedFormula>) -> Result<Seq<ClauseV>, ProblemError> {
    match formulas_numbered(fs, 0, Seq::empty(), Seq::empty(), Seq::empty()) {
        None => Err(ProblemError::TooManyNames),
        Some((converted, symbols, variables)) => clauses_from(
            converted,
            counters_after(variables.len(), symbols.len()),
            Seq::empty(),
        ),
    }
}

/// The values of formulae.
pub open spec fn formula_views(fs: Seq<Formula>) -> Seq<FormulaV> {
    Seq::new(fs.len(), |i: int| fs[i]@)
}

/// No clause that is kept is a tautology.
pub proof fn lemma_kept(cs: Seq<ClauseV>, before: Seq<ClauseV>)
    requires
        forall|i: int| 0 <= i < before.len() ==> !is_tautology(#[trigger] before[i]),
    ensures
        forall|i: int|
            0 <= i < kept(cs, before).len() ==> !is_tautology(#[trigger] kept(cs, before)[i]),
    decreases cs.len(),
{
    let longer = before.push(cs.last());
    let all = kept(cs, before);
    assert forall|i: int| 0 <= i < all.len() implies !is_tautology(#[trigger] all[i]) by {
        if cs.len() == 0 {
            assert(all[i] == before[i]);
        } else if is_tautology(cs.last()) {
            lemma_kept(cs.drop_last(), before);
            assert(all[i] == kept(cs.drop_last(), before)[i]);
        } else {
            assert forall|k: int| 0 <= k < longer.len() implies !is_tautology(
                #[trigger] longer[k],
            ) by {
                if k < before.len() {
                    assert(longer[k] == before[k]);
                }
            }
            lemma_kept(cs.drop_last(), longer);
            assert(all[i] == kept(cs.drop_last(), longer)[i]);
        }
    }
}

/// No clause of a problem is a tautology.
pub proof fn lemma_clauses_from(fs: Seq<FormulaV>, ri: RenamingInfo, before: Seq<ClauseV>)
    requires
        forall|i: int| 0 <= i < before.len() ==> !is_tautology(#[trigger] before[i]),
    ensures
        clauses_from(fs, ri, before) matches Ok(cs) ==> forall|i: int|
            0 <= i < cs.len() ==> !is_tautology(#[trigger] cs[i]),
    decreases fs.len(),
{
    if fs.len() > 0 && enough_names(fs.last(), ri) && is_cnf(cnf_spec(fs.last(), ri)) {
        lemma_kept(collect_spec(cnf_spec(fs.last(), ri)), before);
        lemma_clauses_from(
            fs.drop_last(),
            counters_left(fs.last(), ri),
            kept(collect_spec(cnf_spec(fs.last(), ri)), before),
        );
    }
}

/// The clauses of a problem: those of each formula, of a conjecture those
/// of its negation. Tautologies are left out. The names of the problem are
/// numbered in the order of the formulae; the clauses of the last formula
/// come first.
pub fn clausify(formulas: &Vec<AnnotatedFormula>) -> (r: Result<Vec<Clause>, ProblemError>)
    ensures
        match clausified(formulas@) {
            Ok(cs) => r matches Ok(x) && clause_views(x@) == cs,
            Err(e) => r matches Err(x) && x == e,
        },
        r matches Ok(clauses) ==> forall|i: int|
            0 <= i < clauses@.len() ==> !is_tautology((#[trigger] clauses@[i])@),
        formulas@.len() == 0 ==> (r matches Ok(clauses) && clauses@.len() == 0),
{
    let mut table = SymbolTable::new();
    let mut converted: Vec<Formula> = Vec::new();
    let n = formulas.len();
    let mut i: usize = 0;
    proof {
        assert(formula_views(converted@) =~= Seq::<FormulaV>::empty());
        assert(names(table.symbols@) =~= Seq::<Seq<u8>>::empty());
        assert(names(table.variables@) =~= Seq::<Seq<u8>>::empty());
    }
    let ghost numbered = formulas_numbered(
        formulas@,
        0,
        Seq::empty(),
        Seq::empty(),
        Seq::empty(),
    );
    while i < n
        invariant
            0 <= i <= n,
            n == formulas.len(),
            table.symbols.len() <= MAX_NAMES,
            table.variables.len() <= MAX_NAMES,
            converted@.len() == i,
            formulas_numbered(
                formulas@,
                i as int,
                formula_views(converted@),
                names(table.symbols@),
                names(table.variables@),
            ) == numbered,
            formulas_numbered(formulas@, 0, Seq::empty(), Seq::empty(), Seq::empty())
                == numbered,
        decreases n - i,
    {
        let body = match &formulas[i] {
            AnnotatedFormula::Cnf(f) => &f.2,
            AnnotatedFormula::Fof(f) => &f.2,
        };
        let ghost before = formula_views(converted@);
        let f = match convert_formula(body, &mut table) {
            Some(f) => f,
            None => {
                return Err(ProblemError::TooManyNames);
            },
        };
        if is_conjecture(&formulas[i]) {
            converted.push(Formula::Not(Box::new(f)));
            proof {
                assert(formula_views(converted@) =~= before.push(assumed(true, f@)));
            }
        } else {
            converted.push(f);
            proof {
                assert(formula_views(converted@) =~= before.push(assumed(false, f@)));
            }
        }
        i += 1;
    }
    let mut ri = RenamingInfo::new(-(table.variables.len() as i64), table.symbols.len() as i64);
    let mut clauses: Vec<Clause> = Vec::new();
    let ghost goal = clausified(formulas@);
    proof {
        assert(clause_views(clauses@) =~= Seq::<ClauseV>::empty());
        assert(ri == counters_after(
            names(table.variables@).len(),
            names(table.symbols@).len(),
        ));
        assert(goal == clauses_from(formula_views(converted@), ri, Seq::empty()));
    }
    proof {
        lemma_clauses_from(formula_views(converted@), ri, Seq::empty());
    }
    while converted.len() > 0
        invariant
            clauses_from(formula_views(converted@), ri, clause_views(clauses@)) == goal,
            clausified(formulas@) == goal,
            goal matches Ok(cs) ==> forall|i: int|
                0 <= i < cs.len() ==> !is_tautology(#[trigger] cs[i]),
        decreases converted.len(),
    {
        let ghost fs = formula_views(converted@);
        let f = converted.pop().unwrap();
        proof {
            assert(formula_views(converted@) =~= fs.drop_last());
            assert(f@ == fs.last());
        }
        let normal = match cnf(f, &mut ri) {
            Some(c) => c,
            None => {
                return Err(ProblemError::TooManyNames);
            },
        };
        if !check_cnf(&normal) {
            return Err(ProblemError::NotNormal);
        }
        let mut new = flatten_cnf(normal);
        let ghost rest = kept(clause_views(new@), clause_views(clauses@));
        while new.len() > 0
            invariant
                kept(clause_views(new@), clause_views(clauses@)) == rest,
            decreases new.len(),
        {
            let ghost cs = clause_views(new@);
            let ghost before = clauses@;
            let c = new.pop().unwrap();
            proof {
                assert(clause_views(new@) =~= cs.drop_last());
                assert(c@ == cs.last());
            }
            if !trivial(&c) {
                clauses.push(c);
                proof {
                    assert(clause_views(clauses@) =~= clause_views(before).push(c@));
                }
            }
        }
    }
    proof {
        assert forall|i: int| 0 <= i < clauses@.len() implies !is_tautology(
            (#[trigger] clauses@[i])@,
        ) by {
            assert(clause_views(clauses@)[i] == clauses@[i]@);
        }
    }
    Ok(clauses)
}

/// The ordering of a proof search: the lexicographic path ordering where
/// `use_lpo`, and the Knuth-Bendix ordering in which every symbol and
/// every variable weighs 1 otherwise, both over the precedence by arity.
pub open spec fn search_ordering(use_lpo: bool) -> TermOrdering {
    if use_lpo {
        TermOrdering::LPO(Precedence::Arity)
    } else {
        TermOrdering::KBO(Precedence::Arity, Weight { symbol: 1 }, 1)
    }
}

/// The state of a proof search that starts with the clauses, all passive,
/// with the lexicographic path ordering where `use_lpo` and the
/// Knuth-Bendix ordering otherwise.
pub fn start_search(clauses: Vec<Clause>, use_lpo: bool) -> (state: ProofState)
    ensures
        state.wf(),
        state.input@ == clause_views(clauses@),
        starts_with(
            state,
            search_ordering(use_lpo),
            clause_views(clauses@),
            PICK_RATIO,
            REWRITE_STEPS,
        ),
{
    let ordering = if use_lpo {
        TermOrdering::LPO(Precedence::Arity)
    } else {
        TermOrdering::KBO(Precedence::Arity, Weight::new(1), 1)
    };
    ProofState::new(ordering, clauses, PICK_RATIO, REWRITE_STEPS)
}

} // verus!
