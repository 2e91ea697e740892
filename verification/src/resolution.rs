//! Proving formulae: from a formula to clauses, and to a search for a
//! refutation by resolution or by the given-clause algorithm.
use crate::binary_resolution::{resolve, resolved_from, Outcome};
use crate::clause::{Clause, ClauseV};
use crate::cnf::ast::{Formula, FormulaV};
use crate::cnf::naive_cnf::{cnf, cnf_spec, counters_left, enough_names};
use crate::cnf::renaming_info::RenamingInfo;
use crate::flatten_cnf::{check_cnf, collect_spec, flatten_cnf, is_cnf};
use crate::ordering::precedence::Precedence;
use crate::ordering::term_ordering::TermOrdering;
use crate::ordering::weight::Weight;
use crate::parser::grammar::parsed;
use crate::parser::internal_parser::parse;
use crate::proof_search::entailment::clause_views;
use crate::proof_search::saturation::{
    saturate, searched, starts_with, ProofState, SaturationResult,
};
use crate::semantics::{models, models_all, unsatisfiable, Interpretation};
use crate::simplification::tautology_deletion::{is_tautology, trivial};
use vstd::prelude::*;
use vstd::string::StringSliceAdditionalSpecFns;

verus! {

/// After this many choices by size a clause is chosen by age.
pub const PICK_RATIO: u64 = 5;

/// The most steps in which one side of a literal is rewritten.
pub const REWRITE_STEPS: usize = 1000;

/// The most iterations of a proof search that is started from a text.
pub const ITERATIONS: u64 = 1000000000;

/// The formula that says the opposite.
pub open spec fn negate_spec(f: FormulaV) -> FormulaV {
    match f {
        FormulaV::Not(p) => *p,
        _ => FormulaV::Not(Box::new(f)),
    }
}

/// Negates a formula; of a negation the negated formula is left.
pub fn negate(f: Formula) -> (r: Formula)
    ensures
        r@ == negate_spec(f@),
{
    match f {
        Formula::Not(p) => *p,
        _ => Formula::Not(Box::new(f)),
    }
}

/// Whether `c` is one of the clauses.
pub open spec fn has_clause(all: Seq<ClauseV>, c: ClauseV) -> bool {
    exists|j: int| 0 <= j < all.len() && #[trigger] all[j] == c
}

/// Whether each clause of `part` is a clause of `all`.
pub open spec fn part_of(part: Seq<ClauseV>, all: Seq<ClauseV>) -> bool {
    forall|i: int| 0 <= i < part.len() ==> has_clause(all, #[trigger] part[i])
}

/// Clauses of which a part has no model have no model.
pub proof fn lemma_unsatisfiable_part(part: Seq<ClauseV>, all: Seq<ClauseV>)
    requires
        part_of(part, all),
        unsatisfiable(part),
    ensures
        unsatisfiable(all),
{
    assert forall|m: Interpretation| !#[trigger] models_all(m, all) by {
        if models_all(m, all) {
            assert forall|i: int| 0 <= i < part.len() implies models(m, #[trigger] part[i]) by {
                assert(has_clause(all, part[i]));
                let j = choose|j: int| 0 <= j < all.len() && #[trigger] all[j] == part[i];
                assert(models(m, all[j]));
            }
            assert(models_all(m, part));
        }
    }
}

/// The clauses that are no tautologies, in their order.
fn without_tautologies(clauses: &Vec<Clause>) -> (kept: Vec<Clause>)
    ensures
        clause_views(kept@) == non_tautologies(clause_views(clauses@)),
        part_of(clause_views(kept@), clause_views(clauses@)),
        forall|i: int| 0 <= i < kept@.len() ==> !is_tautology((#[trigger] kept@[i])@),
        kept@.len() <= clauses@.len(),
{
    let ghost all = clause_views(clauses@);
    let mut kept: Vec<Clause> = Vec::new();
    let n = clauses.len();
    let mut i: usize = 0;
    proof {
        assert(clause_views(kept@) =~= non_tautologies(all.take(0)));
    }
    while i < n
        invariant
            0 <= i <= n,
            n == clauses@.len(),
            all == clause_views(clauses@),
            clause_views(kept@) == non_tautologies(all.take(i as int)),
        decreases n - i,
    {
        proof {
            assert(all.take(i as int + 1).drop_last() =~= all.take(i as int));
            assert(all.take(i as int + 1).last() == all[i as int]);
        }
        if !trivial(&clauses[i]) {
            let ghost before = clause_views(kept@);
            kept.push(clauses[i].clone());
            proof {
                assert(clause_views(kept@) =~= before.push(all[i as int]));
            }
        }
        i += 1;
    }
    proof {
        assert(all.take(n as int) =~= all);
        lemma_non_tautologies(all);
        assert forall|k: int| 0 <= k < kept@.len() implies !is_tautology(
            (#[trigger] kept@[k])@,
        ) by {
            assert(clause_views(kept@)[k] == kept@[k]@);
        }
    }
    kept
}

/// The clauses that are no tautologies, in their order.
pub open spec fn non_tautologies(cs: Seq<ClauseV>) -> Seq<ClauseV>
    decreases cs.len(),
{
    if cs.len() == 0 {
        cs
    } else if is_tautology(cs.last()) {
        non_tautologies(cs.drop_last())
    } else {
        non_tautologies(cs.drop_last()).push(cs.last())
    }
}

/// Each clause that is no tautology is one of the clauses.
pub proof fn lemma_non_tautologies(cs: Seq<ClauseV>)
    ensures
        part_of(non_tautologies(cs), cs),
        non_tautologies(cs).len() <= cs.len(),
        forall|i: int|
            0 <= i < non_tautologies(cs).len() ==> !is_tautology(#[trigger] non_tautologies(cs)[i]),
    decreases cs.len(),
{
    let kept = non_tautologies(cs);
    if cs.len() > 0 {
        let rest = cs.drop_last();
        lemma_non_tautologies(rest);
        let before = non_tautologies(rest);
        assert forall|i: int| 0 <= i < kept.len() implies has_clause(cs, #[trigger] kept[i])
            && !is_tautology(kept[i]) by {
            if i < before.len() {
                assert(kept[i] == before[i]);
                assert(has_clause(rest, before[i]));
                let j = choose|j: int| 0 <= j < rest.len() && #[trigger] rest[j] == before[i];
                assert(cs[j] == before[i]);
            } else {
                assert(cs[cs.len() - 1] == kept[i]);
            }
        }
    }
}

/// Searches for a refutation of the clauses, for at most `max_iterations`
/// iterations. Tautologies are left out at the start. A refutation is found
/// only if the clauses have no model.
pub fn refute(clauses: Vec<Clause>, ordering: TermOrdering, max_iterations: u64) -> (r:
    SaturationResult)
    ensures
        r is Refutation ==> unsatisfiable(clause_views(clauses@)),
        clauses@.len() == 0 && max_iterations > 0 ==> r is Saturated,
        refuted_by_search(clause_views(clauses@), ordering, max_iterations as int, r),
{
    let kept = without_tautologies(&clauses);
    let mut state = ProofState::new(ordering, kept, PICK_RATIO, REWRITE_STEPS);
    let ghost start = state;
    let r = saturate(&mut state, max_iterations);
    proof {
        if r is Refutation {
            lemma_unsatisfiable_part(clause_views(kept@), clause_views(clauses@));
        }
        assert(starts_with(
            start,
            ordering,
            non_tautologies(clause_views(clauses@)),
            PICK_RATIO,
            REWRITE_STEPS,
        ) && searched(start, state, r, max_iterations as int));
    }
    r
}

/// Whether `r` is how a given-clause search of at most `max` iterations
/// ends that starts with those of the clauses that are no tautologies.
pub open spec fn refuted_by_search(
    clauses: Seq<ClauseV>,
    ordering: TermOrdering,
    max: int,
    r: SaturationResult,
) -> bool {
    exists|start: ProofState, end: ProofState| #[trigger]
        starts_with(start, ordering, non_tautologies(clauses), PICK_RATIO, REWRITE_STEPS)
            && #[trigger] searched(start, end, r, max)
}

/// Whether the answer says that the formula was proved.
pub open spec fn proved(r: Result<bool, &'static str>) -> bool {
    r matches Ok(b) && b
}

/// Whether the answer says that the negated formula is always true.
pub open spec fn disproved(r: Result<bool, &'static str>) -> bool {
    r matches Ok(b) && !b
}

/// Whether `r` answers the question whether the formula `f` can be proved,
/// with the names from `ri` on free for new variables and symbols.
///
/// The formula is proved only if the normal form of its negation is false
/// or its clauses have no model. The answer is `Ok(false)` exactly when the
/// normal form of the negation is true. Where the names run out the answer
/// is an error.
pub open spec fn answers(r: Result<bool, &'static str>, f: FormulaV, ri: RenamingInfo) -> bool {
    &&& proved(r) ==> enough_names(FormulaV::Not(Box::new(f)), ri) && (cnf_spec(
        FormulaV::Not(Box::new(f)),
        ri,
    ) is False || (is_cnf(cnf_spec(FormulaV::Not(Box::new(f)), ri)) && unsatisfiable(
        collect_spec(cnf_spec(FormulaV::Not(Box::new(f)), ri)),
    )))
    &&& disproved(r) == (enough_names(FormulaV::Not(Box::new(f)), ri) && cnf_spec(
        FormulaV::Not(Box::new(f)),
        ri,
    ) is True)
    &&& !enough_names(FormulaV::Not(Box::new(f)), ri) ==> r is Err
}

/// Tries to prove a formula: its negation is brought to conjunctive normal
/// form, and a refutation of the clauses is searched for. An error says
/// that no proof was found, that the search was given up, or that the names
/// ran out.
pub fn prove_formula(f: Formula, ri: RenamingInfo, ordering: TermOrdering, max_iterations: u64) -> (r:
    Result<bool, &'static str>)
    ensures
        answers(r, f@, ri),
        proved_by_search(r, f@, ri, ordering, max_iterations as int),
{
    let mut ri = ri;
    let negated = Formula::Not(Box::new(f));
    let cnf_f = match cnf(negated, &mut ri) {
        Some(c) => c,
        None => {
            return Err("The names ran out.");
        },
    };
    match cnf_f {
        Formula::False => Ok(true),
        Formula::True => Ok(false),
        _ => {
            if !check_cnf(&cnf_f) {
                return Err("The CNF transformation failed due to some kind of a bug");
            }
            let clauses = flatten_cnf(cnf_f);
            let ghost all = clause_views(clauses@);
            let sr = refute(clauses, ordering, max_iterations);
            let r = match sr {
                SaturationResult::Refutation => Ok(true),
                SaturationResult::Saturated => Err("No proof found."),
                SaturationResult::ResourceOut => Err("The search was given up."),
            };
            proof {
                assert(refuted_by_search(all, ordering, max_iterations as int, sr) && r
                    == search_answer(sr));
            }
            r
        },
    }
}

/// The most rounds of positive resolution before the given-clause search
/// takes over.
pub const RESOLUTION_ROUNDS: u64 = 100;

/// Tries to prove a formula by resolution: its negation is brought to
/// conjunctive normal form, and the empty clause is searched for among the
/// resolvents and factors of its clauses. Where that search is given up
/// after `max_rounds` rounds, the given-clause search with the ordering
/// takes over, for at most `max_iterations` iterations. An error says that
/// no proof was found, that the search was given up, or that the names ran
/// out.
pub fn resolve_formula(
    f: Formula,
    ri: RenamingInfo,
    max_rounds: u64,
    ordering: TermOrdering,
    max_iterations: u64,
) -> (r: Result<bool, &'static str>)
    requires
        ri.var_cnt <= 0,
    ensures
        answers(r, f@, ri),
        proved_by_resolution(r, f@, ri, max_rounds as int, ordering, max_iterations as int),
{
    let mut ri = ri;
    let negated = Formula::Not(Box::new(f));
    let cnf_f = match cnf(negated, &mut ri) {
        Some(c) => c,
        None => {
            return Err("The names ran out.");
        },
    };
    match cnf_f {
        Formula::False => Ok(true),
        Formula::True => Ok(false),
        _ => {
            if !check_cnf(&cnf_f) {
                return Err("The CNF transformation failed due to some kind of a bug");
            }
            let clauses = flatten_cnf(cnf_f);
            let kept = without_tautologies(&clauses);
            proof {
                let none: Seq<Clause> = Seq::empty();
                assert(clause_views(none) + clause_views(kept@) =~= clause_views(kept@));
            }
            let ghost all = clause_views(clauses@);
            let ghost cnt = ri.var_cnt as int;
            let outcome = resolve(Vec::new(), kept, ri.var_cnt, max_rounds);
            let r = match outcome {
                Outcome::Refuted => {
                    proof {
                        lemma_unsatisfiable_part(clause_views(kept@), clause_views(clauses@));
                    }
                    Ok(true)
                },
                Outcome::Exhausted => Err("No proof found."),
                Outcome::GivenUp => {
                    let sr = refute(clauses, ordering, max_iterations);
                    let r = match sr {
                        SaturationResult::Refutation => Ok(true),
                        SaturationResult::Saturated => Err("No proof found."),
                        SaturationResult::ResourceOut => Err("The search was given up."),
                    };
                    proof {
                        assert(refuted_by_search(all, ordering, max_iterations as int, sr) && r
                            == search_answer(sr));
                    }
                    r
                },
            };
            proof {
                assert(clause_views(kept@) == non_tautologies(all) && resolved_from(
                    Seq::empty(),
                    kept@,
                    cnt,
                    max_rounds as int,
                    outcome,
                ));
                assert(resolution_answers(
                    r,
                    all,
                    kept@,
                    outcome,
                    cnt,
                    max_rounds as int,
                    ordering,
                    max_iterations as int,
                ));
            }
            r
        },
    }
}

/// The answer that the end of a given-clause search stands for.
pub open spec fn search_answer(sr: SaturationResult) -> Result<bool, &'static str> {
    match sr {
        SaturationResult::Refutation => Ok(true),
        SaturationResult::Saturated => Err("No proof found."),
        SaturationResult::ResourceOut => Err("The search was given up."),
    }
}

/// Whether `r` is the answer of a given-clause search of at most `max`
/// iterations for a refutation of the clauses.
pub open spec fn answered_by_search(
    r: Result<bool, &'static str>,
    clauses: Seq<ClauseV>,
    ordering: TermOrdering,
    max: int,
) -> bool {
    exists|sr: SaturationResult| #[trigger]
        refuted_by_search(clauses, ordering, max, sr) && r == search_answer(sr)
}

/// Whether `r` is the answer where a search by resolution that starts with
/// the clauses `kept`, all unused, ended with `o`: a refutation is a
/// proof, with no clause left no proof was found, and where resolution was
/// given up `r` is the answer of a given-clause search on the clauses.
pub open spec fn resolution_answers(
    r: Result<bool, &'static str>,
    clauses: Seq<ClauseV>,
    kept: Seq<Clause>,
    o: Outcome,
    var_cnt: int,
    rounds: int,
    ordering: TermOrdering,
    max: int,
) -> bool {
    &&& clause_views(kept) == non_tautologies(clauses)
    &&& resolved_from(Seq::empty(), kept, var_cnt, rounds, o)
    &&& match o {
        Outcome::Refuted => r == Ok::<bool, &'static str>(true),
        Outcome::Exhausted => r == Err::<bool, &'static str>("No proof found."),
        Outcome::GivenUp => answered_by_search(r, clauses, ordering, max),
    }
}

/// Whether `r` is the answer of a search by resolution of at most `rounds`
/// rounds for a refutation of those of the clauses that are no
/// tautologies, with a given-clause search where resolution is given up.
pub open spec fn answered_by_resolution(
    r: Result<bool, &'static str>,
    clauses: Seq<ClauseV>,
    var_cnt: int,
    rounds: int,
    ordering: TermOrdering,
    max: int,
) -> bool {
    exists|kept: Seq<Clause>, o: Outcome| #[trigger]
        resolution_answers(r, clauses, kept, o, var_cnt, rounds, ordering, max)
}

/// Whether `r` is the answer to the question whether the formula `f` can
/// be proved by a given-clause search. Where the names do not suffice for
/// the normal form of the negation, the answer is an error. A normal form
/// that is false proves the formula, one that is true disproves it. Else
/// the answer is that of the search for a refutation of its clauses.
pub open spec fn proved_by_search(
    r: Result<bool, &'static str>,
    f: FormulaV,
    ri: RenamingInfo,
    ordering: TermOrdering,
    max: int,
) -> bool {
    let negated = FormulaV::Not(Box::new(f));
    let normal = cnf_spec(negated, ri);
    if !enough_names(negated, ri) {
        r == Err::<bool, &'static str>("The names ran out.")
    } else if normal is False {
        r == Ok::<bool, &'static str>(true)
    } else if normal is True {
        r == Ok::<bool, &'static str>(false)
    } else if !is_cnf(normal) {
        r == Err::<bool, &'static str>("The CNF transformation failed due to some kind of a bug")
    } else {
        answered_by_search(r, collect_spec(normal), ordering, max)
    }
}

/// Whether `r` is the answer to the question whether the formula `f` can
/// be proved by resolution, as `proved_by_search` says it for the
/// given-clause search. The variables below the counter that the normal
/// form left are free for the search.
pub open spec fn proved_by_resolution(
    r: Result<bool, &'static str>,
    f: FormulaV,
    ri: RenamingInfo,
    rounds: int,
    ordering: TermOrdering,
    max: int,
) -> bool {
    let negated = FormulaV::Not(Box::new(f));
    let normal = cnf_spec(negated, ri);
    if !enough_names(negated, ri) {
        r == Err::<bool, &'static str>("The names ran out.")
    } else if normal is False {
        r == Ok::<bool, &'static str>(true)
    } else if normal is True {
        r == Ok::<bool, &'static str>(false)
    } else if !is_cnf(normal) {
        r == Err::<bool, &'static str>("The CNF transformation failed due to some kind of a bug")
    } else {
        answered_by_resolution(
            r,
            collect_spec(normal),
            counters_left(negated, ri).var_cnt as int,
            rounds,
            ordering,
            max,
        )
    }
}

/// The counters after the given numbers of variables and symbols.
pub open spec fn counters_after(variables: nat, symbols: nat) -> RenamingInfo {
    RenamingInfo { var_cnt: (-variables) as i64, fun_cnt: symbols as i64 }
}

/// Whether `r` answers the question whether the formula that the text
/// states can be proved. A text that states no formula gives an error.
pub open spec fn answers_text(r: Result<bool, &'static str>, text: Seq<u8>) -> bool {
    match parsed(text) {
        Err(_) => r is Err,
        Ok((f, symbols, variables)) => answers(
            r,
            f,
            counters_after(variables.len(), symbols.len()),
        ),
    }
}

/// Whether `r` is the answer of `resolve_formula` for the formula that the
/// text states, with at most `RESOLUTION_ROUNDS` rounds of resolution and
/// then the given-clause search with the Knuth-Bendix ordering in which
/// every symbol and variable weighs 1. A text that states no formula gives
/// an error.
pub open spec fn text_resolved(r: Result<bool, &'static str>, text: Seq<u8>) -> bool {
    match parsed(text) {
        Err(_) => r == Err::<bool, &'static str>("The formula could not be read."),
        Ok((f, symbols, variables)) => proved_by_resolution(
            r,
            f,
            counters_after(variables.len(), symbols.len()),
            RESOLUTION_ROUNDS as int,
            TermOrdering::KBO(Precedence::Arity, Weight { symbol: 1 }, 1),
            ITERATIONS as int,
        ),
    }
}

/// Whether `r` is the answer of `prove_formula` for the formula that the
/// text states, with the lexicographic path ordering. A text that states
/// no formula gives an error.
pub open spec fn text_proved(r: Result<bool, &'static str>, text: Seq<u8>) -> bool {
    match parsed(text) {
        Err(_) => r == Err::<bool, &'static str>("The formula could not be read."),
        Ok((f, symbols, variables)) => proved_by_search(
            r,
            f,
            counters_after(variables.len(), symbols.len()),
            TermOrdering::LPO(Precedence::Arity),
            ITERATIONS as int,
        ),
    }
}

/// The counters after the names of a formula that was read.
fn counters(variables: usize, symbols: usize) -> (ri: RenamingInfo)
    requires
        variables <= crate::parser::internal_parser::MAX_NAMES,
        symbols <= crate::parser::internal_parser::MAX_NAMES,
    ensures
        ri == counters_after(variables as nat, symbols as nat),
{
    RenamingInfo::new(-(variables as i64), symbols as i64)
}

/// Tries to prove the formula that the text states, by resolution and,
/// where that is given up, by the given-clause search with the
/// Knuth-Bendix ordering. A text that holds no formula gives an error.
pub fn resolution(s: &str) -> (r: Result<bool, &'static str>)
    ensures
        answers_text(r, s.spec_bytes()),
        text_resolved(r, s.spec_bytes()),
{
    match parse(s) {
        Err(_) => Err("The formula could not be read."),
        Ok((f, table)) => {
            let ri = counters(table.variables.len(), table.symbols.len());
            resolve_formula(
                f,
                ri,
                RESOLUTION_ROUNDS,
                TermOrdering::KBO(Precedence::Arity, Weight::new(1), 1),
                ITERATIONS,
            )
        },
    }
}

/// Tries to prove the formula that the text states, with the lexicographic
/// path ordering. A text that holds no formula gives an error.
pub fn prove(s: &str) -> (r: Result<bool, &'static str>)
    ensures
        answers_text(r, s.spec_bytes()),
        text_proved(r, s.spec_bytes()),
{
    match parse(s) {
        Err(_) => Err("The formula could not be read."),
        Ok((f, table)) => {
            let ri = counters(table.variables.len(), table.symbols.len());
            prove_formula(f, ri, TermOrdering::LPO(Precedence::Arity), ITERATIONS)
        },
    }
}

} // verus!
