//! The grammar of the TPTP language, as a function from a text to the
//! entries that it holds.
//!
//! Each part of the grammar is a function from a text and a place in it to
//! what stands at the place and the place behind it, or to the error for
//! what stands there instead.
use crate::tptp_parser::ast::{EntryT, FormulaT, TermT};
use crate::tptp_parser::parser::{
    begins_dollar_word, digit, lower, upper, word_char, TptpError,
};
use vstd::prelude::*;

verus! {

/// Whether the character is a blank, a tab or a line end.
pub open spec fn blank(c: char) -> bool {
    c == ' ' || c == '\t' || c == '\n' || c == '\r'
}

/// Whether the character `c` stands at the place.
pub open spec fn char_at(text: Seq<char>, pos: int, c: char) -> bool {
    0 <= pos < text.len() && text[pos] == c
}

/// The error for what stands at a place where it was not expected.
pub open spec fn failure(text: Seq<char>, pos: int) -> TptpError {
    if 0 <= pos < text.len() {
        TptpError::UnexpectedCharacter(pos as usize)
    } else {
        TptpError::UnexpectedEnd
    }
}

/// The first place from `pos` on that holds no space.
pub open spec fn spaces_end(text: Seq<char>, pos: int) -> int
    decreases text.len() - pos,
{
    if 0 <= pos < text.len() && blank(text[pos]) {
        spaces_end(text, pos + 1)
    } else {
        pos
    }
}

/// The first place from `pos` on that holds no character of a word.
pub open spec fn word_end(text: Seq<char>, pos: int) -> int
    decreases text.len() - pos,
{
    if 0 <= pos < text.len() && word_char(text[pos]) {
        word_end(text, pos + 1)
    } else {
        pos
    }
}

/// The first place from `pos` on that holds no digit.
pub open spec fn digits_end(text: Seq<char>, pos: int) -> int
    decreases text.len() - pos,
{
    if 0 <= pos < text.len() && digit(text[pos]) {
        digits_end(text, pos + 1)
    } else {
        pos
    }
}

/// Passing over spaces goes forward, stays in the text and does nothing
/// when done again.
pub proof fn lemma_spaces_end(text: Seq<char>, pos: int)
    ensures
        pos <= spaces_end(text, pos),
        pos <= text.len() ==> spaces_end(text, pos) <= text.len(),
        spaces_end(text, spaces_end(text, pos)) == spaces_end(text, pos),
    decreases text.len() - pos,
{
    if 0 <= pos < text.len() && blank(text[pos]) {
        lemma_spaces_end(text, pos + 1);
    }
}

/// Passing over a word goes forward and stays in the text.
pub proof fn lemma_word_end(text: Seq<char>, pos: int)
    ensures
        pos <= word_end(text, pos),
        pos <= text.len() ==> word_end(text, pos) <= text.len(),
        forall|i: int| 0 <= pos <= i < word_end(text, pos) ==> word_char(#[trigger] text[i]),
        word_end(text, pos) < text.len() && 0 <= pos ==> !word_char(text[word_end(text, pos)]),
    decreases text.len() - pos,
{
    if 0 <= pos < text.len() && word_char(text[pos]) {
        lemma_word_end(text, pos + 1);
    }
}

/// Passing over digits goes forward and stays in the text.
pub proof fn lemma_digits_end(text: Seq<char>, pos: int)
    ensures
        pos <= digits_end(text, pos),
        pos <= text.len() ==> digits_end(text, pos) <= text.len(),
    decreases text.len() - pos,
{
    if 0 <= pos < text.len() && digit(text[pos]) {
        lemma_digits_end(text, pos + 1);
    }
}

/// The place behind the character `c`, which stands at the place after
/// any spaces.
pub open spec fn expected(text: Seq<char>, pos: int, c: char) -> Result<int, TptpError> {
    let p = spaces_end(text, pos);
    if char_at(text, p, c) {
        Ok(p + 1)
    } else {
        Err(failure(text, p))
    }
}

/// A word that begins with a small letter.
pub open spec fn lower_word_at(text: Seq<char>, pos: int) -> Result<(Seq<char>, int), TptpError> {
    if 0 <= pos < text.len() && lower(text[pos]) {
        Ok((text.subrange(pos, word_end(text, pos + 1)), word_end(text, pos + 1)))
    } else {
        Err(failure(text, pos))
    }
}

/// A word that begins with a capital letter.
pub open spec fn upper_word_at(text: Seq<char>, pos: int) -> Result<(Seq<char>, int), TptpError> {
    if 0 <= pos < text.len() && upper(text[pos]) {
        Ok((text.subrange(pos, word_end(text, pos + 1)), word_end(text, pos + 1)))
    } else {
        Err(failure(text, pos))
    }
}

/// A dollar sign with a word that begins with a small letter.
pub open spec fn dollar_word_at(text: Seq<char>, pos: int) -> Result<(Seq<char>, int), TptpError> {
    if begins_dollar_word(text, pos) {
        Ok((text.subrange(pos, word_end(text, pos + 2)), word_end(text, pos + 2)))
    } else {
        Err(failure(text, pos))
    }
}

/// The place of the quote that closes what begins at `start`, looked for
/// from `pos` on: the first quote `q` without a backslash before it or,
/// where there is none, the last quote; `seen` is the last quote before `pos`.
pub open spec fn closing(text: Seq<char>, start: int, pos: int, q: char, seen: Option<int>) -> Option<
    int,
>
    decreases text.len() - pos,
{
    if pos < 0 || pos >= text.len() {
        seen
    } else if text[pos] != q {
        closing(text, start, pos + 1, q, seen)
    } else if pos > start && text[pos - 1] == '\\' {
        closing(text, start, pos + 1, q, Some(pos))
    } else {
        Some(pos)
    }
}

/// The closing quote stands in the text, not before the start.
pub proof fn lemma_closing(text: Seq<char>, start: int, pos: int, q: char, seen: Option<int>)
    requires
        0 <= start <= pos,
        seen matches Some(k) ==> start <= k < text.len() && text[k] == q,
    ensures
        closing(text, start, pos, q, seen) matches Some(k) ==> start <= k < text.len() && text[k]
            == q,
    decreases text.len() - pos,
{
    if pos < text.len() {
        if text[pos] != q {
            lemma_closing(text, start, pos + 1, q, seen);
        } else if pos > start && text[pos - 1] == '\\' {
            lemma_closing(text, start, pos + 1, q, Some(pos));
        }
    }
}

/// What stands between two quotes `q`. A quote after a backslash can stand
/// inside.
pub open spec fn quoted_at(text: Seq<char>, pos: int, q: char) -> Result<
    (Seq<char>, int),
    TptpError,
> {
    if !char_at(text, pos, q) {
        Err(failure(text, pos))
    } else {
        match closing(text, pos + 1, pos + 1, q, None) {
            Some(k) => Ok((text.subrange(pos + 1, k), k + 1)),
            None => Err(TptpError::UnexpectedEnd),
        }
    }
}

/// Whether a sign stands at the place.
pub open spec fn sign_at(text: Seq<char>, pos: int) -> bool {
    char_at(text, pos, '+') || char_at(text, pos, '-')
}

/// The place behind a sign, if one stands at the place.
pub open spec fn sign_end(text: Seq<char>, pos: int) -> int {
    if sign_at(text, pos) {
        pos + 1
    } else {
        pos
    }
}

/// The place behind the exponent of a number, where `pos` is the place
/// behind its digits and fraction.
pub open spec fn exponent_end(text: Seq<char>, pos: int) -> Result<int, TptpError> {
    let first = sign_end(text, pos + 1);
    if !(char_at(text, pos, 'e') || char_at(text, pos, 'E')) {
        Ok(pos)
    } else if digits_end(text, first) == first {
        Err(failure(text, first))
    } else {
        Ok(digits_end(text, first))
    }
}

/// The place behind a number: an integer with or without a sign, a
/// rational number with a slash, or a real number with a fraction or an
/// exponent.
pub open spec fn number_end(text: Seq<char>, pos: int) -> Result<int, TptpError> {
    let first = sign_end(text, pos);
    let whole = digits_end(text, first);
    let part = digits_end(text, whole + 1);
    if whole == first {
        Err(failure(text, first))
    } else if char_at(text, whole, '/') {
        if part == whole + 1 {
            Err(failure(text, part))
        } else {
            Ok(part)
        }
    } else if char_at(text, whole, '.') {
        if part == whole + 1 {
            Err(failure(text, part))
        } else {
            exponent_end(text, part)
        }
    } else {
        exponent_end(text, whole)
    }
}

/// A number, as it is written.
pub open spec fn number_at(text: Seq<char>, pos: int) -> Result<(Seq<char>, int), TptpError> {
    match number_end(text, pos) {
        Ok(end) => Ok((text.subrange(pos, end), end)),
        Err(e) => Err(e),
    }
}

/// A word that begins with a small letter, or a single-quoted name.
pub open spec fn atomic_word_at(text: Seq<char>, pos: int) -> Result<(Seq<char>, int), TptpError> {
    if char_at(text, pos, '\'') {
        quoted_at(text, pos, '\'')
    } else {
        lower_word_at(text, pos)
    }
}

/// The name of a formula, after any spaces: an atomic word or an integer.
pub open spec fn name_at(text: Seq<char>, pos: int) -> Result<(Seq<char>, int), TptpError> {
    let p = spaces_end(text, pos);
    if 0 <= p < text.len() && digit(text[p]) {
        Ok((text.subrange(p, digits_end(text, p)), digits_end(text, p)))
    } else {
        atomic_word_at(text, p)
    }
}

/// The name of a function symbol: a distinct object in double quotes, a
/// word with a dollar sign, a number or an atomic word.
pub open spec fn symbol_at(text: Seq<char>, pos: int) -> Result<(Seq<char>, int), TptpError> {
    if char_at(text, pos, '"') {
        quoted_at(text, pos, '"')
    } else if char_at(text, pos, '$') {
        dollar_word_at(text, pos)
    } else if 0 <= pos < text.len() && (digit(text[pos]) || sign_at(text, pos)) {
        number_at(text, pos)
    } else {
        atomic_word_at(text, pos)
    }
}

/// Whether what was read from `from` ends at `to`, further on in the text.
pub open spec fn moved(text: Seq<char>, from: int, to: int) -> bool {
    from < to <= text.len()
}

/// A name that was read ends further on in the text than it starts.
pub proof fn lemma_names_move(text: Seq<char>, pos: int)
    requires
        0 <= pos,
    ensures
        lower_word_at(text, pos) matches Ok((_, end)) ==> moved(text, pos, end),
        upper_word_at(text, pos) matches Ok((_, end)) ==> moved(text, pos, end),
        dollar_word_at(text, pos) matches Ok((_, end)) ==> moved(text, pos, end),
        quoted_at(text, pos, '\'') matches Ok((_, end)) ==> moved(text, pos, end),
        quoted_at(text, pos, '"') matches Ok((_, end)) ==> moved(text, pos, end),
        number_at(text, pos) matches Ok((_, end)) ==> moved(text, pos, end),
        atomic_word_at(text, pos) matches Ok((_, end)) ==> moved(text, pos, end),
        symbol_at(text, pos) matches Ok((_, end)) ==> moved(text, pos, end),
        name_at(text, pos) matches Ok((_, end)) ==> moved(text, pos, end),
{
    lemma_word_end(text, pos + 1);
    lemma_word_end(text, pos + 2);
    lemma_closing(text, pos + 1, pos + 1, '\'', None);
    lemma_closing(text, pos + 1, pos + 1, '"', None);
    let first = sign_end(text, pos);
    let whole = digits_end(text, first);
    let part = digits_end(text, whole + 1);
    lemma_digits_end(text, first);
    lemma_digits_end(text, whole + 1);
    lemma_digits_end(text, sign_end(text, whole + 1));
    lemma_digits_end(text, sign_end(text, part + 1));
    let p = spaces_end(text, pos);
    lemma_spaces_end(text, pos);
    lemma_digits_end(text, p);
    lemma_word_end(text, p + 1);
    lemma_closing(text, p + 1, p + 1, '\'', None);
}

/// What stands between two quotes ends further on in the text than it starts.
pub proof fn lemma_quoted_moves(text: Seq<char>, pos: int, q: char)
    requires
        0 <= pos,
    ensures
        quoted_at(text, pos, q) matches Ok((_, end)) ==> moved(text, pos, end),
{
    lemma_closing(text, pos + 1, pos + 1, q, None);
}

/// A term, after any spaces: a variable, which begins with a capital
/// letter, or a function symbol, with arguments in brackets or without.
pub open spec fn term_at(text: Seq<char>, pos: int) -> Result<(TermT, int), TptpError>
    decreases text.len() - pos, 0int,
    via term_at_decreases
{
    let p = spaces_end(text, pos);
    if p < 0 || p >= text.len() {
        Err(TptpError::UnexpectedEnd)
    } else if upper(text[p]) {
        match upper_word_at(text, p) {
            Err(e) => Err(e),
            Ok((name, end)) => Ok((TermT::Variable(name), end)),
        }
    } else {
        match symbol_at(text, p) {
            Err(e) => Err(e),
            Ok((name, end)) => if char_at(text, end, '(') {
                match arguments_at(text, end + 1, Seq::empty()) {
                    Err(e) => Err(e),
                    Ok((args, close)) => match expected(text, close, ')') {
                        Err(e) => Err(e),
                        Ok(after) => Ok((TermT::Function(name, args), after)),
                    },
                }
            } else {
                Ok((TermT::Function(name, Seq::empty()), end))
            },
        }
    }
}

/// The terms after the terms `before`, with commas between them.
pub open spec fn arguments_at(text: Seq<char>, pos: int, before: Seq<TermT>) -> Result<
    (Seq<TermT>, int),
    TptpError,
>
    decreases text.len() - pos, 1int,
    via arguments_at_decreases
{
    match term_at(text, pos) {
        Err(e) => Err(e),
        Ok((t, end)) => {
            let comma = spaces_end(text, end);
            if !char_at(text, comma, ',') {
                Ok((before.push(t), comma))
            } else if moved(text, pos, end) {
                arguments_at(text, comma + 1, before.push(t))
            } else {
                Err(TptpError::UnexpectedEnd)
            }
        },
    }
}

#[via_fn]
proof fn term_at_decreases(text: Seq<char>, pos: int) {
    let p = spaces_end(text, pos);
    lemma_spaces_end(text, pos);
    if 0 <= p {
        lemma_names_move(text, p);
    }
}

#[via_fn]
proof fn arguments_at_decreases(text: Seq<char>, pos: int, before: Seq<TermT>) {
    assert forall|p: int| p <= #[trigger] spaces_end(text, p) by {
        lemma_spaces_end(text, p);
    }
}

/// The equation of two terms: the predicate `=` with the two as arguments.
pub open spec fn equation(lhs: TermT, rhs: TermT) -> FormulaT {
    FormulaT::Predicate("="@, seq![lhs, rhs])
}

/// An atom: a predicate with its arguments, an equation or a disequation.
pub open spec fn atom_at(text: Seq<char>, pos: int) -> Result<(FormulaT, int), TptpError> {
    match term_at(text, pos) {
        Err(e) => Err(e),
        Ok((lhs, end)) => {
            let p = spaces_end(text, end);
            if char_at(text, p, '=') && !char_at(text, p + 1, '>') {
                match term_at(text, p + 1) {
                    Err(e) => Err(e),
                    Ok((rhs, after)) => Ok((equation(lhs, rhs), after)),
                }
            } else if char_at(text, p, '!') && char_at(text, p + 1, '=') {
                match term_at(text, p + 2) {
                    Err(e) => Err(e),
                    Ok((rhs, after)) => Ok((FormulaT::Not(Box::new(equation(lhs, rhs))), after)),
                }
            } else {
                match lhs {
                    TermT::Function(name, args) => Ok((FormulaT::Predicate(name, args), p)),
                    TermT::Variable(_) => Err(failure(text, p)),
                }
            }
        },
    }
}

/// A literal of a clause, after any spaces: an atom or a negated atom.
pub open spec fn literal_at(text: Seq<char>, pos: int) -> Result<(FormulaT, int), TptpError> {
    let p = spaces_end(text, pos);
    if char_at(text, p, '~') {
        match atom_at(text, p + 1) {
            Err(e) => Err(e),
            Ok((f, end)) => Ok((FormulaT::Not(Box::new(f)), end)),
        }
    } else {
        atom_at(text, p)
    }
}

/// What follows the disjunction `lhs`: nothing, or a bar and more
/// literals. What stands on the left is joined first.
pub open spec fn more_literals_at(text: Seq<char>, pos: int, lhs: FormulaT) -> Result<
    (FormulaT, int),
    TptpError,
>
    decreases text.len() - pos,
    via more_literals_at_decreases
{
    let bar = spaces_end(text, pos);
    if !char_at(text, bar, '|') {
        Ok((lhs, bar))
    } else {
        match literal_at(text, bar + 1) {
            Err(e) => Err(e),
            Ok((rhs, end)) => if moved(text, bar + 1, end) {
                more_literals_at(text, end, FormulaT::Or(Box::new(lhs), Box::new(rhs)))
            } else {
                Err(TptpError::UnexpectedEnd)
            },
        }
    }
}

#[via_fn]
proof fn more_literals_at_decreases(text: Seq<char>, pos: int, lhs: FormulaT) {
    lemma_spaces_end(text, pos);
}

/// Literals with bars between them.
pub open spec fn disjunction_at(text: Seq<char>, pos: int) -> Result<(FormulaT, int), TptpError> {
    match literal_at(text, pos) {
        Err(e) => Err(e),
        Ok((lhs, end)) => more_literals_at(text, end, lhs),
    }
}

/// A formula in clause normal form, in brackets or without.
pub open spec fn cnf_formula_at(text: Seq<char>, pos: int) -> Result<(FormulaT, int), TptpError> {
    let p = spaces_end(text, pos);
    if char_at(text, p, '(') {
        match disjunction_at(text, p + 1) {
            Err(e) => Err(e),
            Ok((f, close)) => match expected(text, close, ')') {
                Err(e) => Err(e),
                Ok(after) => Ok((f, after)),
            },
        }
    } else {
        disjunction_at(text, p)
    }
}

/// The variables of a quantifier, after the variables `before`, with
/// commas between them.
pub open spec fn variables_at(text: Seq<char>, pos: int, before: Seq<Seq<char>>) -> Result<
    (Seq<Seq<char>>, int),
    TptpError,
>
    decreases text.len() - pos,
    via variables_at_decreases
{
    match upper_word_at(text, spaces_end(text, pos)) {
        Err(e) => Err(e),
        Ok((name, end)) => {
            let comma = spaces_end(text, end);
            if char_at(text, comma, ',') {
                variables_at(text, comma + 1, before.push(name))
            } else {
                Ok((before.push(name), comma))
            }
        },
    }
}

#[via_fn]
proof fn variables_at_decreases(text: Seq<char>, pos: int, before: Seq<Seq<char>>) {
    let p = spaces_end(text, pos);
    lemma_spaces_end(text, pos);
    if 0 <= p {
        lemma_names_move(text, p);
        if let Ok((_, end)) = upper_word_at(text, p) {
            lemma_spaces_end(text, end);
        }
    }
}

/// The formula `f` with the variables bound before it, the last one
/// innermost.
pub open spec fn quantified(universal: bool, variables: Seq<Seq<char>>, f: FormulaT) -> FormulaT
    decreases variables.len(),
{
    if variables.len() == 0 {
        f
    } else if universal {
        quantified(
            universal,
            variables.drop_last(),
            FormulaT::Forall(variables.last(), Box::new(f)),
        )
    } else {
        quantified(
            universal,
            variables.drop_last(),
            FormulaT::Exists(variables.last(), Box::new(f)),
        )
    }
}

/// The connective that stands at the place and its length: 0 for `<=>`, 1
/// for `=>`, 2 for `<=`, 3 for `<~>`, 4 for `~|`, 5 for `~&`.
pub open spec fn connective_at(text: Seq<char>, pos: int) -> Option<(int, int)> {
    if char_at(text, pos, '<') && char_at(text, pos + 1, '=') && char_at(text, pos + 2, '>') {
        Some((0, 3))
    } else if char_at(text, pos, '=') && char_at(text, pos + 1, '>') {
        Some((1, 2))
    } else if char_at(text, pos, '<') && char_at(text, pos + 1, '=') {
        Some((2, 2))
    } else if char_at(text, pos, '<') && char_at(text, pos + 1, '~') && char_at(
        text,
        pos + 2,
        '>',
    ) {
        Some((3, 3))
    } else if char_at(text, pos, '~') && char_at(text, pos + 1, '|') {
        Some((4, 2))
    } else if char_at(text, pos, '~') && char_at(text, pos + 1, '&') {
        Some((5, 2))
    } else {
        None
    }
}

/// Two formulae joined by a connective: an equivalence, an implication, an
/// implication from right to left, and the negations of an equivalence, of
/// a disjunction and of a conjunction.
pub open spec fn binary(kind: int, lhs: FormulaT, rhs: FormulaT) -> FormulaT {
    if kind == 0 {
        FormulaT::Equivalent(Box::new(lhs), Box::new(rhs))
    } else if kind == 1 {
        FormulaT::Implies(Box::new(lhs), Box::new(rhs))
    } else if kind == 2 {
        FormulaT::Implies(Box::new(rhs), Box::new(lhs))
    } else if kind == 3 {
        FormulaT::Not(Box::new(FormulaT::Equivalent(Box::new(lhs), Box::new(rhs))))
    } else if kind == 4 {
        FormulaT::Not(Box::new(FormulaT::Or(Box::new(lhs), Box::new(rhs))))
    } else {
        FormulaT::Not(Box::new(FormulaT::And(Box::new(lhs), Box::new(rhs))))
    }
}

/// A conjunction where `conjunction`, else a disjunction.
pub open spec fn chained(conjunction: bool, lhs: FormulaT, rhs: FormulaT) -> FormulaT {
    if conjunction {
        FormulaT::And(Box::new(lhs), Box::new(rhs))
    } else {
        FormulaT::Or(Box::new(lhs), Box::new(rhs))
    }
}

/// The sign of a conjunction or of a disjunction.
pub open spec fn chain_sign(conjunction: bool) -> char {
    if conjunction {
        '&'
    } else {
        '|'
    }
}

/// A unitary formula, after any spaces: a formula in brackets, a negated
/// or a quantified unitary formula, or an atom.
pub open spec fn unitary_at(text: Seq<char>, pos: int) -> Result<(FormulaT, int), TptpError>
    decreases text.len() - pos, 0int,
    via unitary_at_decreases
{
    let p = spaces_end(text, pos);
    if char_at(text, p, '(') {
        match logic_at(text, p + 1) {
            Err(e) => Err(e),
            Ok((f, close)) => match expected(text, close, ')') {
                Err(e) => Err(e),
                Ok(after) => Ok((f, after)),
            },
        }
    } else if char_at(text, p, '~') {
        match unitary_at(text, p + 1) {
            Err(e) => Err(e),
            Ok((f, end)) => Ok((FormulaT::Not(Box::new(f)), end)),
        }
    } else if (char_at(text, p, '!') || char_at(text, p, '?')) && !char_at(text, p + 1, '=') {
        match bound_at(text, p + 1) {
            Err(e) => Err(e),
            Ok((variables, colon)) => match unitary_at(text, colon) {
                Err(e) => Err(e),
                Ok((f, end)) => Ok((quantified(char_at(text, p, '!'), variables, f), end)),
            },
        }
    } else {
        atom_at(text, p)
    }
}

/// The variables of a quantifier in square brackets, and a colon.
pub open spec fn bound_at(text: Seq<char>, pos: int) -> Result<(Seq<Seq<char>>, int), TptpError> {
    match expected(text, pos, '[') {
        Err(e) => Err(e),
        Ok(first) => match variables_at(text, first, Seq::empty()) {
            Err(e) => Err(e),
            Ok((variables, close)) => match expected(text, close, ']') {
                Err(e) => Err(e),
                Ok(after) => match expected(text, after, ':') {
                    Err(e) => Err(e),
                    Ok(colon) => Ok((variables, colon)),
                },
            },
        },
    }
}

/// The variables of a quantifier end further on in the text than they start.
pub proof fn lemma_bound_moves(text: Seq<char>, pos: int)
    requires
        0 <= pos,
    ensures
        bound_at(text, pos) matches Ok((_, end)) ==> moved(text, pos, end),
{
    lemma_spaces_end(text, pos);
    if let Ok(first) = expected(text, pos, '[') {
        lemma_variables_stay(text, first, Seq::empty());
        if let Ok((_, close)) = variables_at(text, first, Seq::empty()) {
            lemma_spaces_end(text, close);
            if let Ok(after) = expected(text, close, ']') {
                lemma_spaces_end(text, after);
            }
        }
    }
}

/// The variables of a quantifier end in the text, not before their start.
pub proof fn lemma_variables_stay(text: Seq<char>, pos: int, before: Seq<Seq<char>>)
    requires
        0 <= pos,
    ensures
        variables_at(text, pos, before) matches Ok((_, end)) ==> pos <= end <= text.len(),
    decreases text.len() - pos,
{
    let p = spaces_end(text, pos);
    lemma_spaces_end(text, pos);
    lemma_names_move(text, p);
    if let Ok((name, end)) = upper_word_at(text, p) {
        let comma = spaces_end(text, end);
        lemma_spaces_end(text, end);
        if char_at(text, comma, ',') {
            lemma_variables_stay(text, comma + 1, before.push(name));
        }
    }
}

/// A formula: a unitary formula, unitary formulae with bars or with
/// ampersands between them, or two unitary formulae with another
/// connective between them.
pub open spec fn logic_at(text: Seq<char>, pos: int) -> Result<(FormulaT, int), TptpError>
    decreases text.len() - pos, 2int,
    via logic_at_decreases
{
    match unitary_at(text, pos) {
        Err(e) => Err(e),
        Ok((lhs, end)) => {
            let p = spaces_end(text, end);
            if !moved(text, pos, end) {
                Err(TptpError::UnexpectedEnd)
            } else if char_at(text, p, '|') || char_at(text, p, '&') {
                chain_at(text, p, char_at(text, p, '&'), lhs)
            } else {
                match connective_at(text, p) {
                    None => Ok((lhs, p)),
                    Some((kind, width)) => match unitary_at(text, p + width) {
                        Err(e) => Err(e),
                        Ok((rhs, after)) => Ok((binary(kind, lhs, rhs), after)),
                    },
                }
            }
        },
    }
}

/// What follows the conjunction or disjunction `lhs`: nothing, or its sign
/// and more unitary formulae. What stands on the left is joined first.
pub open spec fn chain_at(text: Seq<char>, pos: int, conjunction: bool, lhs: FormulaT) -> Result<
    (FormulaT, int),
    TptpError,
>
    decreases text.len() - pos, 1int,
    via chain_at_decreases
{
    let sign = spaces_end(text, pos);
    if !char_at(text, sign, chain_sign(conjunction)) {
        Ok((lhs, sign))
    } else {
        match unitary_at(text, sign + 1) {
            Err(e) => Err(e),
            Ok((rhs, end)) => if moved(text, sign + 1, end) {
                chain_at(text, end, conjunction, chained(conjunction, lhs, rhs))
            } else {
                Err(TptpError::UnexpectedEnd)
            },
        }
    }
}

#[via_fn]
proof fn unitary_at_decreases(text: Seq<char>, pos: int) {
    let p = spaces_end(text, pos);
    lemma_spaces_end(text, pos);
    if 0 <= p {
        lemma_bound_moves(text, p + 1);
    }
}

#[via_fn]
proof fn logic_at_decreases(text: Seq<char>, pos: int) {
    assert forall|p: int| p <= #[trigger] spaces_end(text, p) by {
        lemma_spaces_end(text, p);
    }
}

#[via_fn]
proof fn chain_at_decreases(text: Seq<char>, pos: int, conjunction: bool, lhs: FormulaT) {
    lemma_spaces_end(text, pos);
}

/// The place behind the annotations of a formula that begin at `pos`: the
/// place of the bracket that closes the formula, which is the first closing
/// bracket outside quotes and outside the brackets that open after `pos`.
/// `depth` is the number of brackets that are open.
pub open spec fn annotations_end(text: Seq<char>, pos: int, depth: nat) -> int
    decreases text.len() - pos,
    via annotations_end_decreases
{
    if pos < 0 || pos >= text.len() {
        pos
    } else if text[pos] == '\'' || text[pos] == '"' {
        match quoted_at(text, pos, text[pos]) {
            Ok((_, end)) => annotations_end(text, end, depth),
            Err(_) => text.len() as int,
        }
    } else if text[pos] == '(' || text[pos] == '[' {
        annotations_end(text, pos + 1, depth + 1)
    } else if text[pos] == ')' || text[pos] == ']' {
        if depth == 0 {
            pos
        } else {
            annotations_end(text, pos + 1, (depth - 1) as nat)
        }
    } else {
        annotations_end(text, pos + 1, depth)
    }
}

#[via_fn]
proof fn annotations_end_decreases(text: Seq<char>, pos: int, depth: nat) {
    if 0 <= pos < text.len() {
        lemma_quoted_moves(text, pos, text[pos]);
    }
}

/// The end of a formula with its name and role: the annotations, if there
/// are any, a closing bracket and a full stop.
pub open spec fn closed_at(text: Seq<char>, pos: int) -> Result<int, TptpError> {
    let comma = spaces_end(text, pos);
    let close = if char_at(text, comma, ',') {
        annotations_end(text, comma + 1, 0)
    } else {
        comma
    };
    match expected(text, close, ')') {
        Err(e) => Err(e),
        Ok(stop) => expected(text, stop, '.'),
    }
}

/// The name and the role of a formula, in an opening bracket and with a
/// comma after each.
pub open spec fn heading_at(text: Seq<char>, pos: int) -> Result<
    (Seq<char>, Seq<char>, int),
    TptpError,
> {
    match expected(text, pos, '(') {
        Err(e) => Err(e),
        Ok(first) => match name_at(text, first) {
            Err(e) => Err(e),
            Ok((name, comma)) => match expected(text, comma, ',') {
                Err(e) => Err(e),
                Ok(second) => match lower_word_at(text, spaces_end(text, second)) {
                    Err(e) => Err(e),
                    Ok((role, comma)) => match expected(text, comma, ',') {
                        Err(e) => Err(e),
                        Ok(after) => Ok((name, role, after)),
                    },
                },
            },
        },
    }
}

/// A formula with its name and role, behind the word `cnf` or `fof`.
pub open spec fn annotated_at(text: Seq<char>, pos: int, clause_form: bool) -> Result<
    (Seq<char>, Seq<char>, FormulaT, int),
    TptpError,
> {
    match heading_at(text, pos) {
        Err(e) => Err(e),
        Ok((name, role, first)) => match (if clause_form {
            cnf_formula_at(text, first)
        } else {
            logic_at(text, first)
        }) {
            Err(e) => Err(e),
            Ok((f, end)) => match closed_at(text, end) {
                Err(e) => Err(e),
                Ok(after) => Ok((name, role, f, after)),
            },
        },
    }
}

/// The names of an include directive, after the names `before`, with
/// commas between them.
pub open spec fn names_at(text: Seq<char>, pos: int, before: Seq<Seq<char>>) -> Result<
    (Seq<Seq<char>>, int),
    TptpError,
>
    decreases text.len() - pos,
    via names_at_decreases
{
    match name_at(text, pos) {
        Err(e) => Err(e),
        Ok((name, end)) => {
            let comma = spaces_end(text, end);
            if char_at(text, comma, ',') {
                names_at(text, comma + 1, before.push(name))
            } else {
                Ok((before.push(name), comma))
            }
        },
    }
}

#[via_fn]
proof fn names_at_decreases(text: Seq<char>, pos: int, before: Seq<Seq<char>>) {
    if 0 <= pos {
        lemma_names_move(text, pos);
        if let Ok((_, end)) = name_at(text, pos) {
            lemma_spaces_end(text, end);
        }
    }
}

/// The names to take from an included file, if any are given: a comma and
/// the names in square brackets.
pub open spec fn selection_at(text: Seq<char>, pos: int) -> Result<
    (Option<Seq<Seq<char>>>, int),
    TptpError,
> {
    let comma = spaces_end(text, pos);
    if !char_at(text, comma, ',') {
        Ok((None, comma))
    } else {
        match expected(text, comma + 1, '[') {
            Err(e) => Err(e),
            Ok(first) => match names_at(text, first, Seq::empty()) {
                Err(e) => Err(e),
                Ok((names, close)) => match expected(text, close, ']') {
                    Err(e) => Err(e),
                    Ok(after) => Ok((Some(names), after)),
                },
            },
        }
    }
}

/// An include directive, behind the word `include`: in brackets the
/// single-quoted name of the file and the names to take from it, then a
/// full stop.
pub open spec fn inclusion_at(text: Seq<char>, pos: int) -> Result<
    (Seq<char>, Option<Seq<Seq<char>>>, int),
    TptpError,
> {
    match expected(text, pos, '(') {
        Err(e) => Err(e),
        Ok(first) => match quoted_at(text, spaces_end(text, first), '\'') {
            Err(e) => Err(e),
            Ok((file, end)) => match selection_at(text, end) {
                Err(e) => Err(e),
                Ok((names, close)) => match expected(text, close, ')') {
                    Err(e) => Err(e),
                    Ok(stop) => match expected(text, stop, '.') {
                        Err(e) => Err(e),
                        Ok(after) => Ok((file, names, after)),
                    },
                },
            },
        }
    }
}

/// One entry of a problem, after any spaces: the word `cnf` or `fof` with
/// a formula, or the word `include` with a directive.
pub open spec fn entry_at(text: Seq<char>, pos: int) -> Result<(EntryT, int), TptpError> {
    match lower_word_at(text, spaces_end(text, pos)) {
        Err(e) => Err(e),
        Ok((word, end)) => if word == "cnf"@ {
            match annotated_at(text, end, true) {
                Err(e) => Err(e),
                Ok((name, role, f, after)) => Ok((EntryT::Clause(name, role, f), after)),
            }
        } else if word == "fof"@ {
            match annotated_at(text, end, false) {
                Err(e) => Err(e),
                Ok((name, role, f, after)) => Ok((EntryT::Formula(name, role, f), after)),
            }
        } else if word == "include"@ {
            match inclusion_at(text, end) {
                Err(e) => Err(e),
                Ok((file, names, after)) => Ok((EntryT::Include(file, names), after)),
            }
        } else {
            Err(failure(text, end))
        },
    }
}

/// The entries of a text from `pos` on, after the entries `before`.
pub open spec fn entries_at(text: Seq<char>, pos: int, before: Seq<EntryT>) -> Result<
    Seq<EntryT>,
    TptpError,
>
    decreases text.len() - pos,
    via entries_at_decreases
{
    let p = spaces_end(text, pos);
    if p < 0 || p >= text.len() {
        Ok(before)
    } else {
        match entry_at(text, p) {
            Err(e) => Err(e),
            Ok((entry, end)) => if moved(text, p, end) {
                entries_at(text, end, before.push(entry))
            } else {
                Err(TptpError::UnexpectedEnd)
            },
        }
    }
}

#[via_fn]
proof fn entries_at_decreases(text: Seq<char>, pos: int, before: Seq<EntryT>) {
    lemma_spaces_end(text, pos);
}

/// A character that was expected stands in the text, and the place
/// behind it is further on.
pub proof fn lemma_expected(text: Seq<char>, pos: int, c: char)
    ensures
        expected(text, pos, c) matches Ok(end) ==> pos < end <= text.len(),
{
    lemma_spaces_end(text, pos);
}

/// A term that was read ends further on in the text than it starts.
pub proof fn lemma_term_moves(text: Seq<char>, pos: int)
    requires
        0 <= pos,
    ensures
        term_at(text, pos) matches Ok((_, end)) ==> moved(text, pos, end),
    decreases text.len() - pos, 0int,
{
    let p = spaces_end(text, pos);
    lemma_spaces_end(text, pos);
    lemma_names_move(text, p);
    if 0 <= p < text.len() && !upper(text[p]) {
        if let Ok((_, end)) = symbol_at(text, p) {
            if char_at(text, end, '(') {
                lemma_arguments_stay(text, end + 1, Seq::empty());
                if let Ok((_, close)) = arguments_at(text, end + 1, Seq::empty()) {
                    lemma_expected(text, close, ')');
                }
            }
        }
    }
}

/// The terms that were read end in the text, not before their start, and
/// the reading moved on after each of them.
pub proof fn lemma_arguments_stay(text: Seq<char>, pos: int, before: Seq<TermT>)
    requires
        0 <= pos,
    ensures
        arguments_at(text, pos, before) matches Ok((_, end)) ==> pos <= end <= text.len(),
    decreases text.len() - pos, 1int,
{
    lemma_term_moves(text, pos);
    if let Ok((t, end)) = term_at(text, pos) {
        let comma = spaces_end(text, end);
        lemma_spaces_end(text, end);
        if char_at(text, comma, ',') {
            lemma_arguments_stay(text, comma + 1, before.push(t));
        }
    }
}

/// An atom or a literal that was read ends further on in the text than it
/// starts.
pub proof fn lemma_atom_moves(text: Seq<char>, pos: int)
    requires
        0 <= pos,
    ensures
        atom_at(text, pos) matches Ok((_, end)) ==> moved(text, pos, end),
        literal_at(text, pos) matches Ok((_, end)) ==> moved(text, pos, end),
{
    lemma_term_moves(text, pos);
    if let Ok((_, end)) = term_at(text, pos) {
        let p = spaces_end(text, end);
        lemma_spaces_end(text, end);
        lemma_term_moves(text, p + 1);
        lemma_term_moves(text, p + 2);
    }
    let first = spaces_end(text, pos);
    lemma_spaces_end(text, pos);
    lemma_term_moves(text, first);
    if let Ok((_, end)) = term_at(text, first) {
        let p = spaces_end(text, end);
        lemma_spaces_end(text, end);
        lemma_term_moves(text, p + 1);
        lemma_term_moves(text, p + 2);
    }
    lemma_term_moves(text, first + 1);
    if let Ok((_, end)) = term_at(text, first + 1) {
        let p = spaces_end(text, end);
        lemma_spaces_end(text, end);
        lemma_term_moves(text, p + 1);
        lemma_term_moves(text, p + 2);
    }
}

/// What was read after a disjunction ends in the text, not before its start.
pub proof fn lemma_more_literals_stay(text: Seq<char>, pos: int, lhs: FormulaT)
    requires
        0 <= pos <= text.len(),
    ensures
        more_literals_at(text, pos, lhs) matches Ok((_, end)) ==> pos <= end <= text.len(),
    decreases text.len() - pos,
{
    let bar = spaces_end(text, pos);
    lemma_spaces_end(text, pos);
    if char_at(text, bar, '|') {
        lemma_atom_moves(text, bar + 1);
        if let Ok((rhs, end)) = literal_at(text, bar + 1) {
            lemma_more_literals_stay(text, end, FormulaT::Or(Box::new(lhs), Box::new(rhs)));
        }
    }
}

/// A formula in clause normal form that was read ends further on in the
/// text than it starts.
pub proof fn lemma_clause_moves(text: Seq<char>, pos: int)
    requires
        0 <= pos,
    ensures
        disjunction_at(text, pos) matches Ok((_, end)) ==> moved(text, pos, end),
        cnf_formula_at(text, pos) matches Ok((_, end)) ==> moved(text, pos, end),
{
    lemma_atom_moves(text, pos);
    if let Ok((lhs, end)) = literal_at(text, pos) {
        lemma_more_literals_stay(text, end, lhs);
    }
    let p = spaces_end(text, pos);
    lemma_spaces_end(text, pos);
    lemma_atom_moves(text, p);
    if let Ok((lhs, end)) = literal_at(text, p) {
        lemma_more_literals_stay(text, end, lhs);
    }
    lemma_atom_moves(text, p + 1);
    if let Ok((lhs, end)) = literal_at(text, p + 1) {
        lemma_more_literals_stay(text, end, lhs);
        if let Ok((_, close)) = more_literals_at(text, end, lhs) {
            lemma_expected(text, close, ')');
        }
    }
}

/// A unitary formula that was read ends further on in the text than it
/// starts.
pub proof fn lemma_unitary_moves(text: Seq<char>, pos: int)
    requires
        0 <= pos,
    ensures
        unitary_at(text, pos) matches Ok((_, end)) ==> moved(text, pos, end),
    decreases text.len() - pos, 0int,
{
    let p = spaces_end(text, pos);
    lemma_spaces_end(text, pos);
    if char_at(text, p, '(') {
        lemma_logic_moves(text, p + 1);
        if let Ok((_, close)) = logic_at(text, p + 1) {
            lemma_expected(text, close, ')');
        }
    } else if char_at(text, p, '~') {
        lemma_unitary_moves(text, p + 1);
    } else if (char_at(text, p, '!') || char_at(text, p, '?')) && !char_at(text, p + 1, '=') {
        lemma_bound_moves(text, p + 1);
        if let Ok((_, colon)) = bound_at(text, p + 1) {
            lemma_unitary_moves(text, colon);
        }
    } else {
        lemma_atom_moves(text, p);
    }
}

/// A formula that was read ends further on in the text than it starts: the
/// reading moves on wherever the grammar asks whether it did.
pub proof fn lemma_logic_moves(text: Seq<char>, pos: int)
    requires
        0 <= pos,
    ensures
        logic_at(text, pos) matches Ok((_, end)) ==> moved(text, pos, end),
    decreases text.len() - pos, 2int,
{
    lemma_unitary_moves(text, pos);
    if let Ok((lhs, end)) = unitary_at(text, pos) {
        let p = spaces_end(text, end);
        lemma_spaces_end(text, end);
        if char_at(text, p, '|') || char_at(text, p, '&') {
            lemma_chain_stays(text, p, char_at(text, p, '&'), lhs);
        } else if let Some((_, width)) = connective_at(text, p) {
            lemma_unitary_moves(text, p + width);
        }
    }
}

/// What was read after a conjunction or disjunction ends in the text, not
/// before its start.
pub proof fn lemma_chain_stays(text: Seq<char>, pos: int, conjunction: bool, lhs: FormulaT)
    requires
        0 <= pos <= text.len(),
    ensures
        chain_at(text, pos, conjunction, lhs) matches Ok((_, end)) ==> pos <= end <= text.len(),
    decreases text.len() - pos, 1int,
{
    let sign = spaces_end(text, pos);
    lemma_spaces_end(text, pos);
    if char_at(text, sign, chain_sign(conjunction)) {
        lemma_unitary_moves(text, sign + 1);
        if let Ok((rhs, end)) = unitary_at(text, sign + 1) {
            lemma_chain_stays(text, end, conjunction, chained(conjunction, lhs, rhs));
        }
    }
}

/// The annotations of a formula end in the text, not before their start.
pub proof fn lemma_annotations_end(text: Seq<char>, pos: int, depth: nat)
    requires
        0 <= pos <= text.len(),
    ensures
        pos <= annotations_end(text, pos, depth) <= text.len(),
    decreases text.len() - pos,
{
    if pos < text.len() {
        if text[pos] == '\'' || text[pos] == '"' {
            lemma_quoted_moves(text, pos, text[pos]);
            if let Ok((_, end)) = quoted_at(text, pos, text[pos]) {
                lemma_annotations_end(text, end, depth);
            }
        } else if text[pos] == '(' || text[pos] == '[' {
            lemma_annotations_end(text, pos + 1, depth + 1);
        } else if text[pos] == ')' || text[pos] == ']' {
            if depth != 0 {
                lemma_annotations_end(text, pos + 1, (depth - 1) as nat);
            }
        } else {
            lemma_annotations_end(text, pos + 1, depth);
        }
    }
}

/// A formula with its name and role that was read ends further on in the
/// text than it starts.
pub proof fn lemma_annotated_moves(text: Seq<char>, pos: int, clause_form: bool)
    requires
        0 <= pos,
    ensures
        annotated_at(text, pos, clause_form) matches Ok((_, _, _, end)) ==> moved(text, pos, end),
{
    lemma_expected(text, pos, '(');
    if let Ok(first) = expected(text, pos, '(') {
        lemma_names_move(text, first);
        if let Ok((_, comma)) = name_at(text, first) {
            lemma_expected(text, comma, ',');
            if let Ok(second) = expected(text, comma, ',') {
                lemma_spaces_end(text, second);
                lemma_names_move(text, spaces_end(text, second));
                if let Ok((_, comma2)) = lower_word_at(text, spaces_end(text, second)) {
                    lemma_expected(text, comma2, ',');
                }
            }
        }
    }
    if let Ok((_, _, first)) = heading_at(text, pos) {
        lemma_clause_moves(text, first);
        lemma_logic_moves(text, first);
        let read = if clause_form {
            cnf_formula_at(text, first)
        } else {
            logic_at(text, first)
        };
        if let Ok((_, end)) = read {
            let comma = spaces_end(text, end);
            lemma_spaces_end(text, end);
            if char_at(text, comma, ',') {
                lemma_annotations_end(text, comma + 1, 0);
            }
            let close = if char_at(text, comma, ',') {
                annotations_end(text, comma + 1, 0)
            } else {
                comma
            };
            lemma_expected(text, close, ')');
            if let Ok(stop) = expected(text, close, ')') {
                lemma_expected(text, stop, '.');
            }
        }
    }
}

/// The names of an include directive end in the text, not before their start.
pub proof fn lemma_names_stay(text: Seq<char>, pos: int, before: Seq<Seq<char>>)
    requires
        0 <= pos,
    ensures
        names_at(text, pos, before) matches Ok((_, end)) ==> pos <= end <= text.len(),
    decreases text.len() - pos,
{
    lemma_names_move(text, pos);
    if let Ok((name, end)) = name_at(text, pos) {
        let comma = spaces_end(text, end);
        lemma_spaces_end(text, end);
        if char_at(text, comma, ',') {
            lemma_names_stay(text, comma + 1, before.push(name));
        }
    }
}

/// An include directive that was read ends further on in the text than it
/// starts.
pub proof fn lemma_inclusion_moves(text: Seq<char>, pos: int)
    requires
        0 <= pos,
    ensures
        inclusion_at(text, pos) matches Ok((_, _, end)) ==> moved(text, pos, end),
{
    lemma_expected(text, pos, '(');
    if let Ok(first) = expected(text, pos, '(') {
        lemma_spaces_end(text, first);
        lemma_quoted_moves(text, spaces_end(text, first), '\'');
        if let Ok((_, end)) = quoted_at(text, spaces_end(text, first), '\'') {
            let comma = spaces_end(text, end);
            lemma_spaces_end(text, end);
            if char_at(text, comma, ',') {
                lemma_expected(text, comma + 1, '[');
                if let Ok(list) = expected(text, comma + 1, '[') {
                    lemma_names_stay(text, list, Seq::empty());
                    if let Ok((_, close)) = names_at(text, list, Seq::empty()) {
                        lemma_expected(text, close, ']');
                    }
                }
            }
            if let Ok((_, close)) = selection_at(text, end) {
                lemma_expected(text, close, ')');
                if let Ok(stop) = expected(text, close, ')') {
                    lemma_expected(text, stop, '.');
                }
            }
        }
    }
}

/// An entry that was read ends further on in the text than it starts.
pub proof fn lemma_entry_moves(text: Seq<char>, pos: int)
    requires
        0 <= pos,
    ensures
        entry_at(text, pos) matches Ok((_, end)) ==> moved(text, pos, end),
{
    let p = spaces_end(text, pos);
    lemma_spaces_end(text, pos);
    lemma_names_move(text, p);
    if let Ok((_, end)) = lower_word_at(text, p) {
        lemma_annotated_moves(text, end, true);
        lemma_annotated_moves(text, end, false);
        lemma_inclusion_moves(text, end);
    }
}

/// The entries that a text without comments holds.
pub open spec fn problem(text: Seq<char>) -> Result<Seq<EntryT>, TptpError> {
    entries_at(text, 0, Seq::empty())
}

/// What a text holds and nothing else: what stands at its start, where
/// only spaces follow.
pub open spec fn alone<T>(text: Seq<char>, read: Result<(T, int), TptpError>) -> Result<
    T,
    TptpError,
> {
    match read {
        Err(e) => Err(e),
        Ok((value, end)) => if spaces_end(text, end) >= text.len() {
            Ok(value)
        } else {
            Err(failure(text, spaces_end(text, end)))
        },
    }
}

} // verus!
