//! The grammar of formulae, as a function from a text to what it states.
//!
//! A text is read from left to right. What was read so far is a `Reading`:
//! the place that was reached and the names that were found, each kind in
//! the order in which its names were first met. A name gets its number when
//! what it heads is complete: a function symbol after its arguments, a bound
//! variable before the formula that it is bound in.
use crate::cnf::ast::FormulaV;
use crate::parser::internal_parser::{ParseError, MAX_NAMES};
use crate::term::TermV;
use vstd::prelude::*;

verus! {

/// The place that was reached in a text, and the names that were found.
pub struct Reading {
    pub pos: int,
    pub symbols: Seq<Seq<u8>>,
    pub variables: Seq<Seq<u8>>,
}

impl Reading {
    /// The reading at the start of a text.
    pub open spec fn start() -> Reading {
        Reading { pos: 0, symbols: Seq::empty(), variables: Seq::empty() }
    }

    /// The same names at another place.
    pub open spec fn at(self, pos: int) -> Reading {
        Reading { pos, symbols: self.symbols, variables: self.variables }
    }
}

/// Whether the byte is a blank, a tab or a line end.
pub open spec fn space_byte(c: u8) -> bool {
    c == 32 || c == 9 || c == 10 || c == 13
}

/// Whether the byte is a letter, a digit or an underscore.
pub open spec fn name_byte(c: u8) -> bool {
    (48 <= c <= 57) || (65 <= c <= 90) || (97 <= c <= 122) || c == 95
}

/// The first place from `pos` on that holds no space.
pub open spec fn skip(input: Seq<u8>, pos: int) -> int
    decreases input.len() - pos,
{
    if 0 <= pos < input.len() && space_byte(input[pos]) {
        skip(input, pos + 1)
    } else {
        pos
    }
}

/// The first place from `pos` on that holds no byte of a name.
pub open spec fn name_end(input: Seq<u8>, pos: int) -> int
    decreases input.len() - pos,
{
    if 0 <= pos < input.len() && name_byte(input[pos]) {
        name_end(input, pos + 1)
    } else {
        pos
    }
}

/// Passing over spaces goes forward, stays in the text, ends at a byte
/// that is no space, and does nothing when done again.
pub proof fn lemma_skip(input: Seq<u8>, pos: int)
    ensures
        pos <= skip(input, pos),
        pos <= input.len() ==> skip(input, pos) <= input.len(),
        0 <= pos && skip(input, pos) < input.len() ==> !space_byte(input[skip(input, pos)]),
        skip(input, skip(input, pos)) == skip(input, pos),
        forall|i: int| pos <= i < skip(input, pos) ==> space_byte(#[trigger] input[i]),
    decreases input.len() - pos,
{
    if 0 <= pos < input.len() && space_byte(input[pos]) {
        lemma_skip(input, pos + 1);
    }
}

/// Passing over a name goes forward, stays in the text and ends at a byte
/// that belongs to no name.
pub proof fn lemma_name_end(input: Seq<u8>, pos: int)
    ensures
        pos <= name_end(input, pos),
        pos <= input.len() ==> name_end(input, pos) <= input.len(),
        0 <= pos && name_end(input, pos) < input.len() ==> !name_byte(
            input[name_end(input, pos)],
        ),
        forall|i: int| 0 <= pos <= i < name_end(input, pos) ==> name_byte(#[trigger] input[i]),
    decreases input.len() - pos,
{
    if 0 <= pos < input.len() && name_byte(input[pos]) {
        lemma_name_end(input, pos + 1);
    }
}

/// Whether the byte `c` stands at the place.
pub open spec fn byte_at(input: Seq<u8>, pos: int, c: u8) -> bool {
    0 <= pos < input.len() && input[pos] == c
}

/// The error for what stands at a place where it was not expected.
pub open spec fn unexpected_at(input: Seq<u8>, pos: int) -> ParseError {
    if 0 <= pos < input.len() {
        ParseError::UnexpectedCharacter(pos as usize)
    } else {
        ParseError::UnexpectedEnd
    }
}

/// Whether the name is the `i`-th of the names and none before it is.
pub open spec fn first_at(names: Seq<Seq<u8>>, name: Seq<u8>, i: int) -> bool {
    &&& 0 <= i < names.len()
    &&& names[i] == name
    &&& forall|j: int| 0 <= j < i ==> #[trigger] names[j] != name
}

/// Whether the name is one of the names.
pub open spec fn known(names: Seq<Seq<u8>>, name: Seq<u8>) -> bool {
    exists|i: int| first_at(names, name, i)
}

/// The place of a name among the names, and the names with it: a new name
/// is added at the end. There is none where the names are full.
pub open spec fn interned(names: Seq<Seq<u8>>, name: Seq<u8>) -> Option<(int, Seq<Seq<u8>>)> {
    if known(names, name) {
        Some((choose|i: int| first_at(names, name, i), names))
    } else if names.len() >= MAX_NAMES {
        None
    } else {
        Some((names.len() as int, names.push(name)))
    }
}

/// The word `forall`.
pub open spec fn forall_word() -> Seq<u8> {
    seq![102u8, 111u8, 114u8, 97u8, 108u8, 108u8]
}

/// The word `exists`.
pub open spec fn exists_word() -> Seq<u8> {
    seq![101u8, 120u8, 105u8, 115u8, 116u8, 115u8]
}

/// The length of the connective of a level.
pub open spec fn operator_len(level: nat) -> int {
    if level <= 2 {
        2
    } else {
        3
    }
}

/// Whether the connective of a level stands at the place: `/\` for the
/// first level, `\/` for the second, `==>` for the third, `<=>` for the
/// fourth.
pub open spec fn operator_at(input: Seq<u8>, pos: int, level: nat) -> bool {
    &&& 0 <= pos
    &&& pos + operator_len(level) <= input.len()
    &&& if level <= 1 {
        input[pos] == 47 && input[pos + 1] == 92
    } else if level == 2 {
        input[pos] == 92 && input[pos + 1] == 47
    } else if level == 3 {
        input[pos] == 61 && input[pos + 1] == 61 && input[pos + 2] == 62
    } else {
        input[pos] == 60 && input[pos + 1] == 61 && input[pos + 2] == 62
    }
}

/// Two formulae joined by the connective of a level.
pub open spec fn joined(level: nat, p: FormulaV, q: FormulaV) -> FormulaV {
    if level <= 1 {
        FormulaV::And(Box::new(p), Box::new(q))
    } else if level == 2 {
        FormulaV::Or(Box::new(p), Box::new(q))
    } else if level == 3 {
        FormulaV::Implies(Box::new(p), Box::new(q))
    } else {
        FormulaV::Equivalent(Box::new(p), Box::new(q))
    }
}

/// Whether the second reading is further on in the text than the first.
pub open spec fn moved(input: Seq<u8>, from: Reading, to: Reading) -> bool {
    from.pos < to.pos <= input.len()
}

/// The symbol `name` with the number that it has among the symbols of the
/// reading, which ends at `pos`.
pub open spec fn symbol_at(st: Reading, name: Seq<u8>, pos: int) -> Result<
    (int, Reading),
    ParseError,
> {
    match interned(st.symbols, name) {
        None => Err(ParseError::TooManyNames),
        Some((i, symbols)) => Ok((i + 1, Reading { pos, symbols, variables: st.variables })),
    }
}

/// The variable `name` with the number that it has among the variables of
/// the reading, which ends at `pos`.
pub open spec fn variable_at(st: Reading, name: Seq<u8>, pos: int) -> Result<
    (int, Reading),
    ParseError,
> {
    match interned(st.variables, name) {
        None => Err(ParseError::TooManyNames),
        Some((i, variables)) => Ok((-i - 1, Reading { pos, symbols: st.symbols, variables })),
    }
}

/// The brackets that close at the reading. The result is the reading
/// behind the closing bracket.
pub open spec fn closed_at(input: Seq<u8>, st: Reading) -> Result<Reading, ParseError> {
    let close = skip(input, st.pos);
    if byte_at(input, close, 41) {
        Ok(st.at(close + 1))
    } else {
        Err(unexpected_at(input, close))
    }
}

/// A term: a name, and arguments in brackets where it is a function symbol.
pub open spec fn term_at(input: Seq<u8>, st: Reading) -> Result<(TermV, Reading), ParseError>
    decreases input.len() - st.pos, 0int,
    via term_at_decreases
{
    let start = skip(input, st.pos);
    let end = name_end(input, start);
    let open = skip(input, end);
    let name = input.subrange(start, end);
    if end == start {
        Err(unexpected_at(input, start))
    } else if byte_at(input, open, 40) {
        match terms_at(input, st.at(open + 1)) {
            Err(e) => Err(e),
            Ok((args, st2)) => match closed_at(input, st2) {
                Err(e) => Err(e),
                Ok(st3) => match symbol_at(st3, name, st3.pos) {
                    Err(e) => Err(e),
                    Ok((id, st4)) => Ok((TermV::Fun(id, false, args), st4)),
                },
            },
        }
    } else {
        match variable_at(st, name, open) {
            Err(e) => Err(e),
            Ok((x, st2)) => Ok((TermV::Var(x), st2)),
        }
    }
}

/// The terms up to a closing bracket, with commas between them.
pub open spec fn terms_at(input: Seq<u8>, st: Reading) -> Result<(Seq<TermV>, Reading), ParseError>
    decreases input.len() - st.pos, 2int,
    via terms_at_decreases
{
    let start = skip(input, st.pos);
    if byte_at(input, start, 41) {
        Ok((Seq::empty(), st.at(start)))
    } else {
        more_terms_at(input, st.at(start), Seq::empty())
    }
}

/// The terms after the terms `before`, with commas between them.
pub open spec fn more_terms_at(input: Seq<u8>, st: Reading, before: Seq<TermV>) -> Result<
    (Seq<TermV>, Reading),
    ParseError,
>
    decreases input.len() - st.pos, 1int,
    via more_terms_at_decreases
{
    match term_at(input, st) {
        Err(e) => Err(e),
        Ok((t, st2)) => {
            let comma = skip(input, st2.pos);
            if !byte_at(input, comma, 44) {
                Ok((before.push(t), st2.at(comma)))
            } else if moved(input, st, st2) {
                more_terms_at(input, st2.at(comma + 1), before.push(t))
            } else {
                Err(ParseError::UnexpectedEnd)
            }
        },
    }
}

#[via_fn]
proof fn term_at_decreases(input: Seq<u8>, st: Reading) {
    let start = skip(input, st.pos);
    let end = name_end(input, start);
    lemma_skip(input, st.pos);
    lemma_name_end(input, start);
    lemma_skip(input, end);
}

#[via_fn]
proof fn terms_at_decreases(input: Seq<u8>, st: Reading) {
    lemma_skip(input, st.pos);
    let start = skip(input, st.pos);
    if !byte_at(input, start, 41) && start != st.pos {
        assert(space_byte(input[st.pos]));
    }
}

#[via_fn]
proof fn more_terms_at_decreases(input: Seq<u8>, st: Reading, before: Seq<TermV>) {
    assert forall|pos: int| pos <= #[trigger] skip(input, pos) by {
        lemma_skip(input, pos);
    }
}

/// A negation, a quantified formula, a formula in brackets or an atom.
pub open spec fn unary_at(input: Seq<u8>, st: Reading) -> Result<(FormulaV, Reading), ParseError>
    decreases input.len() - st.pos, 0int,
    via unary_at_decreases
{
    let start = skip(input, st.pos);
    let end = name_end(input, start);
    let name = input.subrange(start, end);
    if byte_at(input, start, 126) {
        match unary_at(input, st.at(start + 1)) {
            Err(e) => Err(e),
            Ok((f, st2)) => Ok((FormulaV::Not(Box::new(f)), st2)),
        }
    } else if byte_at(input, start, 40) {
        match formula_at(input, st.at(start + 1), 4) {
            Err(e) => Err(e),
            Ok((f, st2)) => match closed_at(input, st2) {
                Err(e) => Err(e),
                Ok(st3) => Ok((f, st3)),
            },
        }
    } else if end == start {
        Err(unexpected_at(input, start))
    } else if name == forall_word() || name == exists_word() {
        let first = skip(input, end);
        let last = name_end(input, first);
        let dot = skip(input, last);
        if last == first {
            Err(unexpected_at(input, first))
        } else if !byte_at(input, dot, 46) {
            Err(unexpected_at(input, dot))
        } else {
            match variable_at(st, input.subrange(first, last), dot + 1) {
                Err(e) => Err(e),
                Ok((x, st2)) => match formula_at(input, st2, 4) {
                    Err(e) => Err(e),
                    Ok((f, st3)) => if name == forall_word() {
                        Ok((FormulaV::Forall(x, Box::new(f)), st3))
                    } else {
                        Ok((FormulaV::Exists(x, Box::new(f)), st3))
                    },
                },
            }
        }
    } else {
        let open = skip(input, end);
        if byte_at(input, open, 40) {
            match terms_at(input, st.at(open + 1)) {
                Err(e) => Err(e),
                Ok((args, st2)) => match closed_at(input, st2) {
                    Err(e) => Err(e),
                    Ok(st3) => match symbol_at(st3, name, st3.pos) {
                        Err(e) => Err(e),
                        Ok((id, st4)) => Ok((FormulaV::Predicate(id, args), st4)),
                    },
                },
            }
        } else {
            match symbol_at(st, name, open) {
                Err(e) => Err(e),
                Ok((id, st2)) => Ok((FormulaV::Predicate(id, Seq::empty()), st2)),
            }
        }
    }
}

/// A formula of a level: formulae of the level below, joined by the
/// connective of the level. At the lowest level stand the negations, the
/// quantified formulae, the formulae in brackets and the atoms.
pub open spec fn formula_at(input: Seq<u8>, st: Reading, level: nat) -> Result<
    (FormulaV, Reading),
    ParseError,
>
    decreases input.len() - st.pos, 2 * level + 2,
    via formula_at_decreases
{
    if level <= 0 {
        unary_at(input, st)
    } else {
        match formula_at(input, st, (level - 1) as nat) {
            Err(e) => Err(e),
            Ok((lhs, st2)) => if moved(input, st, st2) {
                joined_at(input, st2, level, lhs)
            } else {
                Err(ParseError::UnexpectedEnd)
            },
        }
    }
}

/// What follows the formula `lhs` at its level: nothing, or the connective
/// and more. An implication has a whole implication on its right; the
/// other connectives join what stands on their left first.
pub open spec fn joined_at(input: Seq<u8>, st: Reading, level: nat, lhs: FormulaV) -> Result<
    (FormulaV, Reading),
    ParseError,
>
    decreases input.len() - st.pos, 2 * level + 1,
    via joined_at_decreases
{
    let start = skip(input, st.pos);
    let next = st.at(start + operator_len(level));
    if level <= 0 || !operator_at(input, start, level) {
        Ok((lhs, st.at(start)))
    } else if level == 3 {
        match formula_at(input, next, 3) {
            Err(e) => Err(e),
            Ok((rhs, st2)) => Ok((joined(level, lhs, rhs), st2)),
        }
    } else {
        match formula_at(input, next, (level - 1) as nat) {
            Err(e) => Err(e),
            Ok((rhs, st2)) => if moved(input, next, st2) {
                joined_at(input, st2, level, joined(level, lhs, rhs))
            } else {
                Err(ParseError::UnexpectedEnd)
            },
        }
    }
}

#[via_fn]
proof fn unary_at_decreases(input: Seq<u8>, st: Reading) {
    let start = skip(input, st.pos);
    let end = name_end(input, start);
    lemma_skip(input, st.pos);
    lemma_name_end(input, start);
    lemma_skip(input, end);
    let first = skip(input, end);
    let last = name_end(input, first);
    lemma_name_end(input, first);
    lemma_skip(input, last);
}

#[via_fn]
proof fn formula_at_decreases(input: Seq<u8>, st: Reading, level: nat) {
}

#[via_fn]
proof fn joined_at_decreases(input: Seq<u8>, st: Reading, level: nat, lhs: FormulaV) {
    lemma_skip(input, st.pos);
}

/// What a text states: a formula of the highest level and nothing after
/// it, with the names of its symbols and of its variables.
pub open spec fn parsed(input: Seq<u8>) -> Result<
    (FormulaV, Seq<Seq<u8>>, Seq<Seq<u8>>),
    ParseError,
> {
    match formula_at(input, Reading::start(), 4) {
        Err(e) => Err(e),
        Ok((f, st)) => {
            let end = skip(input, st.pos);
            if 0 <= end < input.len() {
                Err(ParseError::UnexpectedCharacter(end as usize))
            } else {
                Ok((f, st.symbols, st.variables))
            }
        },
    }
}

/// A term that was read ends further on in the text than it starts.
pub proof fn lemma_term_moves(input: Seq<u8>, st: Reading)
    requires
        0 <= st.pos <= input.len(),
    ensures
        term_at(input, st) matches Ok((_, st2)) ==> moved(input, st, st2),
    decreases input.len() - st.pos, 0int,
{
    let start = skip(input, st.pos);
    let end = name_end(input, start);
    let open = skip(input, end);
    lemma_skip(input, st.pos);
    lemma_name_end(input, start);
    lemma_skip(input, end);
    if end != start && byte_at(input, open, 40) {
        lemma_terms_stay(input, st.at(open + 1));
        if let Ok((_, st2)) = terms_at(input, st.at(open + 1)) {
            lemma_skip(input, st2.pos);
        }
    }
}

/// The terms that were read end in the text, not before their start.
pub proof fn lemma_terms_stay(input: Seq<u8>, st: Reading)
    requires
        0 <= st.pos <= input.len(),
    ensures
        terms_at(input, st) matches Ok((_, st2)) ==> st.pos <= st2.pos <= input.len(),
    decreases input.len() - st.pos, 2int,
{
    let start = skip(input, st.pos);
    lemma_skip(input, st.pos);
    if !byte_at(input, start, 41) {
        lemma_more_terms_stay(input, st.at(start), Seq::empty());
    }
}

/// The terms that were read after others end in the text, not before
/// their start, and the reading moved on after each of them.
pub proof fn lemma_more_terms_stay(input: Seq<u8>, st: Reading, before: Seq<TermV>)
    requires
        0 <= st.pos <= input.len(),
    ensures
        more_terms_at(input, st, before) matches Ok((_, st2)) ==> st.pos <= st2.pos
            <= input.len(),
        term_at(input, st) matches Ok((_, st2)) ==> moved(input, st, st2),
    decreases input.len() - st.pos, 1int,
{
    lemma_term_moves(input, st);
    if let Ok((t, st2)) = term_at(input, st) {
        let comma = skip(input, st2.pos);
        lemma_skip(input, st2.pos);
        if byte_at(input, comma, 44) {
            lemma_more_terms_stay(input, st2.at(comma + 1), before.push(t));
        }
    }
}

/// A negation, a quantified formula, a formula in brackets or an atom that
/// was read ends further on in the text than it starts.
pub proof fn lemma_unary_moves(input: Seq<u8>, st: Reading)
    requires
        0 <= st.pos <= input.len(),
    ensures
        unary_at(input, st) matches Ok((_, st2)) ==> moved(input, st, st2),
    decreases input.len() - st.pos, 0int,
{
    let start = skip(input, st.pos);
    let end = name_end(input, start);
    let name = input.subrange(start, end);
    lemma_skip(input, st.pos);
    lemma_name_end(input, start);
    lemma_skip(input, end);
    if byte_at(input, start, 126) {
        lemma_unary_moves(input, st.at(start + 1));
    } else if byte_at(input, start, 40) {
        lemma_formula_moves(input, st.at(start + 1), 4);
        if let Ok((_, st2)) = formula_at(input, st.at(start + 1), 4) {
            lemma_skip(input, st2.pos);
        }
    } else if end == start {
    } else if name == forall_word() || name == exists_word() {
        let first = skip(input, end);
        let last = name_end(input, first);
        let dot = skip(input, last);
        lemma_name_end(input, first);
        lemma_skip(input, last);
        if last != first && byte_at(input, dot, 46) {
            if let Ok((_, st2)) = variable_at(st, input.subrange(first, last), dot + 1) {
                lemma_formula_moves(input, st2, 4);
            }
        }
    } else {
        let open = skip(input, end);
        if byte_at(input, open, 40) {
            lemma_terms_stay(input, st.at(open + 1));
            if let Ok((_, st2)) = terms_at(input, st.at(open + 1)) {
                lemma_skip(input, st2.pos);
            }
        }
    }
}

/// A formula that was read ends further on in the text than it starts: the
/// reading moves on wherever the grammar asks whether it did.
pub proof fn lemma_formula_moves(input: Seq<u8>, st: Reading, level: nat)
    requires
        0 <= st.pos <= input.len(),
    ensures
        formula_at(input, st, level) matches Ok((_, st2)) ==> moved(input, st, st2),
    decreases input.len() - st.pos, 2 * level + 2,
{
    if level == 0 {
        lemma_unary_moves(input, st);
    } else {
        lemma_formula_moves(input, st, (level - 1) as nat);
        if let Ok((lhs, st2)) = formula_at(input, st, (level - 1) as nat) {
            lemma_joined_stays(input, st2, level, lhs);
        }
    }
}

/// What was read after a formula at its level ends in the text, not before
/// its start.
pub proof fn lemma_joined_stays(input: Seq<u8>, st: Reading, level: nat, lhs: FormulaV)
    requires
        0 <= st.pos <= input.len(),
    ensures
        joined_at(input, st, level, lhs) matches Ok((_, st2)) ==> st.pos <= st2.pos
            <= input.len(),
    decreases input.len() - st.pos, 2 * level + 1,
{
    let start = skip(input, st.pos);
    let next = st.at(start + operator_len(level));
    lemma_skip(input, st.pos);
    if level > 0 && operator_at(input, start, level) {
        if level == 3 {
            lemma_formula_moves(input, next, 3);
        } else {
            lemma_formula_moves(input, next, (level - 1) as nat);
            if let Ok((rhs, st2)) = formula_at(input, next, (level - 1) as nat) {
                lemma_joined_stays(input, st2, level, joined(level, lhs, rhs));
            }
        }
    }
}

/// A text that holds spaces only states nothing: it ends where a formula
/// was expected.
pub proof fn lemma_blank_text(input: Seq<u8>)
    requires
        skip(input, 0) >= input.len(),
    ensures
        parsed(input) == Err::<(FormulaV, Seq<Seq<u8>>, Seq<Seq<u8>>), ParseError>(
            ParseError::UnexpectedEnd,
        ),
{
    reveal_with_fuel(formula_at, 6);
    let start = skip(input, 0);
    assert(name_end(input, start) == start);
    assert(unary_at(input, Reading::start()) == Err::<(FormulaV, Reading), ParseError>(
        ParseError::UnexpectedEnd,
    ));
}

} // verus!
