//! A parser for problems in the TPTP language.
use crate::tptp_parser::ast::{
    entries, entry_view, lemma_function_view, term_views, texts, AnnotatedFormula, EntryT,
    Formula, FormulaT, Include, Term, TermT, TptpInput,
};
use crate::tptp_parser::grammar::{
    alone, annotated_at, annotations_end, arguments_at, atom_at, atomic_word_at, binary,
    bound_at, chain_at, char_at, closed_at, closing, cnf_formula_at,
    connective_at, digits_end, disjunction_at, dollar_word_at, entries_at, entry_at, equation,
    expected, exponent_end, failure, heading_at, inclusion_at, lemma_closing, lemma_digits_end,
    lemma_spaces_end, lemma_word_end, literal_at, logic_at, lower_word_at,
    more_literals_at, name_at, names_at, number_at, problem, quantified,
    quoted_at, selection_at, sign_end, spaces_end, symbol_at, term_at, unitary_at, upper_word_at,
    variables_at, word_end,
};
use crate::tptp_parser::preprocess::{cleaned, patterns_compile, preprocess};
use crate::tptp_parser::text::{chars_of, text_of};
use vstd::prelude::*;

verus! {

/// Why a problem could not be read.
#[derive(Debug, Clone, Copy, PartialEq, Eq)]
pub enum TptpError {
    /// The text ended where more was expected.
    UnexpectedEnd,
    /// The character at this place was not expected.
    UnexpectedCharacter(usize),
    /// The comments could not be removed.
    Comments,
}

/// A text that is being read and the place that was reached.
pub struct Reader {
    pub text: Vec<char>,
    pub pos: usize,
}

/// Whether the character is a small letter.
pub open spec fn lower(c: char) -> bool {
    'a' <= c <= 'z'
}

/// Whether the character is a capital letter.
pub open spec fn upper(c: char) -> bool {
    'A' <= c <= 'Z'
}

/// Whether the character is a digit.
pub open spec fn digit(c: char) -> bool {
    '0' <= c <= '9'
}

/// Whether the character can stand inside a word: a letter, a digit or an underscore.
pub open spec fn word_char(c: char) -> bool {
    lower(c) || upper(c) || digit(c) || c == '_'
}

/// Whether a dollar sign and a small letter stand at place `i` of the text.
pub open spec fn begins_dollar_word(text: Seq<char>, i: int) -> bool {
    0 <= i && i + 1 < text.len() && text[i] == '$' && lower(text[i + 1])
}

/// Whether the text is a dollar sign with a word after it that begins with
/// a small letter.
pub open spec fn dollar_word_text(text: Seq<char>) -> bool {
    &&& begins_dollar_word(text, 0)
    &&& forall|i: int| 2 <= i < text.len() ==> word_char(#[trigger] text[i])
}

/// Whether the text is what stands between two quotes `q`.
pub open spec fn quoted_text(text: Seq<char>, q: char, inner: Seq<char>) -> bool {
    text == seq![q] + inner + seq![q]
}

/// Whether the character is a small letter.
pub fn is_lower(c: char) -> (r: bool)
    ensures
        r == lower(c),
{
    'a' <= c && c <= 'z'
}

/// Whether the character is a capital letter.
pub fn is_upper(c: char) -> (r: bool)
    ensures
        r == upper(c),
{
    'A' <= c && c <= 'Z'
}

/// Whether the character is a digit.
pub fn is_digit(c: char) -> (r: bool)
    ensures
        r == digit(c),
{
    '0' <= c && c <= '9'
}

/// Whether the character can stand inside a word.
pub fn is_word_char(c: char) -> (r: bool)
    ensures
        r == word_char(c),
{
    is_lower(c) || is_upper(c) || is_digit(c) || c == '_'
}

/// Whether the text is the given word.
pub fn is_word(name: &String, word: &str) -> (r: bool)
    ensures
        r == (name@ == word@),
{
    let a = chars_of(name.as_str());
    let b = chars_of(word);
    if a.len() != b.len() {
        return false;
    }
    let n = a.len();
    let mut i: usize = 0;
    while i < n
        invariant
            0 <= i <= n,
            n == a.len(),
            n == b.len(),
            a@ == name@,
            b@ == word@,
            forall|j: int| 0 <= j < i ==> a[j] == b[j],
        decreases n - i,
    {
        if a[i] != b[i] {
            return false;
        }
        i += 1;
    }
    proof {
        assert(a@ =~= b@);
    }
    true
}

/// Whether `r` is what the grammar gives: the value `want` read up to the
/// place `pos`, or the same error.
pub open spec fn reads<T: View>(
    r: Result<T, TptpError>,
    want: Result<(T::V, int), TptpError>,
    pos: int,
) -> bool {
    match want {
        Ok((v, end)) => r matches Ok(x) && x@ == v && pos == end,
        Err(e) => r matches Err(x) && x == e,
    }
}

/// Whether `r` is the place that the grammar gives, or the same error.
pub open spec fn passes(r: Result<(), TptpError>, want: Result<int, TptpError>, pos: int) -> bool {
    match want {
        Ok(end) => r is Ok && pos == end,
        Err(e) => r matches Err(x) && x == e,
    }
}

/// Whether `r` holds the texts that the grammar gives, read up to the
/// place `pos`, or the same error.
pub open spec fn reads_texts(
    r: Result<Vec<String>, TptpError>,
    want: Result<(Seq<Seq<char>>, int), TptpError>,
    pos: int,
) -> bool {
    match want {
        Ok((v, end)) => r matches Ok(x) && texts(x@) == v && pos == end,
        Err(e) => r matches Err(x) && x == e,
    }
}

/// Whether `r` holds the terms that the grammar gives, read up to the
/// place `pos`, or the same error.
pub open spec fn reads_terms(
    r: Result<Vec<Term>, TptpError>,
    want: Result<(Seq<TermT>, int), TptpError>,
    pos: int,
) -> bool {
    match want {
        Ok((v, end)) => r matches Ok(x) && term_views(x@) == v && pos == end,
        Err(e) => r matches Err(x) && x == e,
    }
}

/// Whether `r` holds the name, the role and the formula that the grammar
/// gives, read up to the place `pos`, or the same error.
pub open spec fn reads_formula(
    r: Result<(String, String, Formula), TptpError>,
    want: Result<(Seq<char>, Seq<char>, FormulaT, int), TptpError>,
    pos: int,
) -> bool {
    match want {
        Ok((name, role, f, end)) => r matches Ok(x) && x.0@ == name && x.1@ == role && x.2@ == f
            && pos == end,
        Err(e) => r matches Err(x) && x == e,
    }
}

impl Reader {
    /// Whether the place is in the text.
    pub open spec fn wf(&self) -> bool {
        self.pos <= self.text.len()
    }

    /// Whether `next` is this reader further on in the same text.
    pub open spec fn advanced(&self, next: &Reader) -> bool {
        next.wf() && next.text@ == self.text@ && self.pos <= next.pos
    }

    /// How much of the text is left.
    pub open spec fn rest(&self) -> int {
        self.text.len() - self.pos
    }

    /// A reader at the beginning of a text.
    pub fn new(s: &str) -> (r: Reader)
        ensures
            r.wf(),
            r.text@ == s@,
            r.pos == 0,
    {
        Reader { text: chars_of(s), pos: 0 }
    }

    /// The error for what comes next where it was not expected.
    fn fail(&self) -> (e: TptpError)
        ensures
            e == failure(self.text@, self.pos as int),
    {
        if self.pos < self.text.len() {
            TptpError::UnexpectedCharacter(self.pos)
        } else {
            TptpError::UnexpectedEnd
        }
    }

    /// Passes over blanks, tabs and line ends.
    fn skip_spaces(&mut self)
        requires
            old(self).wf(),
        ensures
            old(self).advanced(final(self)),
            final(self).pos == spaces_end(old(self).text@, old(self).pos as int),
    {
        while self.pos < self.text.len() && (self.text[self.pos] == ' ' || self.text[self.pos]
            == '\t' || self.text[self.pos] == '\n' || self.text[self.pos] == '\r')
            invariant
                old(self).advanced(self),
                spaces_end(self.text@, self.pos as int) == spaces_end(
                    old(self).text@,
                    old(self).pos as int,
                ),
            decreases self.text.len() - self.pos,
        {
            self.pos = self.pos + 1;
        }
    }

    /// Whether the next character is `c`.
    fn at(&self, c: char) -> (r: bool)
        requires
            self.wf(),
        ensures
            r == char_at(self.text@, self.pos as int, c),
    {
        self.pos < self.text.len() && self.text[self.pos] == c
    }

    /// Whether the character after this many characters is `c`.
    fn ahead(&self, n: usize, c: char) -> (r: bool)
        requires
            self.wf(),
        ensures
            r == char_at(self.text@, self.pos + n, c),
    {
        n < self.text.len() - self.pos && self.text[self.pos + n] == c
    }

    /// Passes over the character `c` after any spaces, if it comes next.
    fn eat(&mut self, c: char) -> (r: bool)
        requires
            old(self).wf(),
        ensures
            old(self).advanced(final(self)),
            r == char_at(old(self).text@, spaces_end(old(self).text@, old(self).pos as int), c),
            final(self).pos == spaces_end(old(self).text@, old(self).pos as int) + (if r {
                1int
            } else {
                0int
            }),
    {
        self.skip_spaces();
        if self.at(c) {
            self.pos = self.pos + 1;
            true
        } else {
            false
        }
    }

    /// Passes over the character `c` after any spaces, or fails.
    fn expect(&mut self, c: char) -> (r: Result<(), TptpError>)
        requires
            old(self).wf(),
        ensures
            old(self).advanced(final(self)),
            passes(r, expected(old(self).text@, old(self).pos as int, c), final(self).pos as int),
            r is Ok ==> final(self).pos > old(self).pos,
    {
        proof {
            lemma_spaces_end(self.text@, self.pos as int);
        }
        if self.eat(c) {
            Ok(())
        } else {
            Err(self.fail())
        }
    }

    /// Passes over the characters of a word.
    fn word_rest(&mut self)
        requires
            old(self).wf(),
        ensures
            old(self).advanced(final(self)),
            final(self).pos == word_end(old(self).text@, old(self).pos as int),
    {
        while self.pos < self.text.len() && is_word_char(self.text[self.pos])
            invariant
                old(self).advanced(self),
                word_end(self.text@, self.pos as int) == word_end(
                    old(self).text@,
                    old(self).pos as int,
                ),
            decreases self.text.len() - self.pos,
        {
            self.pos = self.pos + 1;
        }
    }

    /// Reads a word that begins with a small letter.
    fn lower_word(&mut self) -> (r: Result<String, TptpError>)
        requires
            old(self).wf(),
        ensures
            old(self).advanced(final(self)),
            reads(r, lower_word_at(old(self).text@, old(self).pos as int), final(self).pos as int),
            r is Ok ==> final(self).pos > old(self).pos,
    {
        let start = self.pos;
        if self.pos < self.text.len() && is_lower(self.text[self.pos]) {
            self.pos = self.pos + 1;
            self.word_rest();
            Ok(text_of(&self.text, start, self.pos))
        } else {
            Err(self.fail())
        }
    }

    /// Reads a word that begins with a capital letter.
    fn upper_word(&mut self) -> (r: Result<String, TptpError>)
        requires
            old(self).wf(),
        ensures
            old(self).advanced(final(self)),
            reads(r, upper_word_at(old(self).text@, old(self).pos as int), final(self).pos as int),
            r is Ok ==> final(self).pos > old(self).pos,
    {
        let start = self.pos;
        if self.pos < self.text.len() && is_upper(self.text[self.pos]) {
            self.pos = self.pos + 1;
            self.word_rest();
            Ok(text_of(&self.text, start, self.pos))
        } else {
            Err(self.fail())
        }
    }

    /// Reads a dollar sign with a word that begins with a small letter.
    fn dollar_word(&mut self) -> (r: Result<String, TptpError>)
        requires
            old(self).wf(),
        ensures
            old(self).advanced(final(self)),
            reads(
                r,
                dollar_word_at(old(self).text@, old(self).pos as int),
                final(self).pos as int,
            ),
            r is Ok ==> final(self).pos > old(self).pos,
            r is Err ==> final(self).pos == old(self).pos,
    {
        let start = self.pos;
        if self.at('$') && self.text.len() - self.pos >= 2 && is_lower(self.text[self.pos + 1]) {
            self.pos = self.pos + 2;
            self.word_rest();
            Ok(text_of(&self.text, start, self.pos))
        } else {
            Err(self.fail())
        }
    }

    /// Reads what stands between two quotes `q`. A quote after a backslash
    /// can stand inside; the closing quote is the first quote without a
    /// backslash before it or, where there is none, the last quote.
    fn quoted(&mut self, q: char) -> (r: Result<String, TptpError>)
        requires
            old(self).wf(),
        ensures
            old(self).advanced(final(self)),
            reads(r, quoted_at(old(self).text@, old(self).pos as int, q), final(self).pos as int),
            r is Ok ==> final(self).pos >= old(self).pos + 2,
            r is Err && char_at(old(self).text@, old(self).pos as int, q) ==> final(self).pos
                == final(self).text.len(),
    {
        if !self.at(q) {
            return Err(self.fail());
        }
        let start = self.pos + 1;
        let n = self.text.len();
        let ghost goal = closing(self.text@, start as int, start as int, q, None);
        let mut last: Option<usize> = None;
        let mut found = false;
        let mut j: usize = start;
        while j < n && !found
            invariant
                start <= j <= n,
                n == self.text.len(),
                last matches Some(k) ==> start <= k < n && self.text@[k as int] == q,
                found ==> last is Some && goal == Some(last->0 as int),
                !found ==> goal == closing(
                    self.text@,
                    start as int,
                    j as int,
                    q,
                    match last {
                        Some(k) => Some(k as int),
                        None => None,
                    },
                ),
            decreases n - j + (if found {
                0int
            } else {
                1int
            }),
        {
            if self.text[j] == q {
                last = Some(j);
                if !(j > start && self.text[j - 1] == '\\') {
                    found = true;
                }
            }
            if !found {
                j += 1;
            }
        }
        match last {
            Some(k) => {
                let s = text_of(&self.text, start, k);
                self.pos = k + 1;
                Ok(s)
            },
            None => {
                self.pos = n;
                Err(TptpError::UnexpectedEnd)
            },
        }
    }

    /// Passes over digits; yields whether there was one.
    fn digits(&mut self) -> (r: bool)
        requires
            old(self).wf(),
        ensures
            old(self).advanced(final(self)),
            final(self).pos == digits_end(old(self).text@, old(self).pos as int),
            r == (final(self).pos > old(self).pos),
    {
        let start = self.pos;
        while self.pos < self.text.len() && is_digit(self.text[self.pos])
            invariant
                old(self).advanced(self),
                start == old(self).pos,
                digits_end(self.text@, self.pos as int) == digits_end(
                    old(self).text@,
                    old(self).pos as int,
                ),
            decreases self.text.len() - self.pos,
        {
            self.pos = self.pos + 1;
        }
        self.pos > start
    }

    /// Passes over a sign, if one comes next.
    fn sign(&mut self)
        requires
            old(self).wf(),
        ensures
            old(self).advanced(final(self)),
            final(self).pos == sign_end(old(self).text@, old(self).pos as int),
    {
        if self.at('+') || self.at('-') {
            self.pos = self.pos + 1;
        }
    }

    /// Passes over the exponent of a number, if one comes next.
    fn exponent(&mut self) -> (r: Result<(), TptpError>)
        requires
            old(self).wf(),
        ensures
            old(self).advanced(final(self)),
            passes(r, exponent_end(old(self).text@, old(self).pos as int), final(self).pos as int),
    {
        if self.at('e') || self.at('E') {
            self.pos = self.pos + 1;
            self.sign();
            if !self.digits() {
                return Err(self.fail());
            }
        }
        Ok(())
    }

    /// Reads a number: an integer with or without a sign, a rational number
    /// with a slash, or a real number with a fraction or an exponent.
    fn number(&mut self) -> (r: Result<String, TptpError>)
        requires
            old(self).wf(),
        ensures
            old(self).advanced(final(self)),
            reads(r, number_at(old(self).text@, old(self).pos as int), final(self).pos as int),
            r is Ok ==> final(self).pos > old(self).pos,
    {
        let start = self.pos;
        self.sign();
        if !self.digits() {
            return Err(self.fail());
        }
        if self.at('/') {
            self.pos = self.pos + 1;
            if !self.digits() {
                return Err(self.fail());
            }
        } else {
            if self.at('.') {
                self.pos = self.pos + 1;
                if !self.digits() {
                    return Err(self.fail());
                }
            }
            match self.exponent() {
                Ok(_) => {},
                Err(e) => {
                    return Err(e);
                },
            }
        }
        Ok(text_of(&self.text, start, self.pos))
    }

    /// Reads a word that begins with a small letter, or a single-quoted name.
    fn atomic_word(&mut self) -> (r: Result<String, TptpError>)
        requires
            old(self).wf(),
        ensures
            old(self).advanced(final(self)),
            reads(
                r,
                atomic_word_at(old(self).text@, old(self).pos as int),
                final(self).pos as int,
            ),
            r is Ok ==> final(self).pos > old(self).pos,
    {
        if self.at('\'') {
            self.quoted('\'')
        } else {
            self.lower_word()
        }
    }

    /// Reads the name of a formula: an atomic word or an integer.
    fn name(&mut self) -> (r: Result<String, TptpError>)
        requires
            old(self).wf(),
        ensures
            old(self).advanced(final(self)),
            reads(r, name_at(old(self).text@, old(self).pos as int), final(self).pos as int),
            r is Ok ==> final(self).pos > old(self).pos,
    {
        self.skip_spaces();
        if self.pos < self.text.len() && is_digit(self.text[self.pos]) {
            let start = self.pos;
            proof {
                lemma_digits_end(self.text@, start + 1);
            }
            self.digits();
            Ok(text_of(&self.text, start, self.pos))
        } else {
            self.atomic_word()
        }
    }

    /// Reads the name of a function symbol: a distinct object, a word with
    /// a dollar sign, a number or an atomic word.
    fn symbol(&mut self) -> (r: Result<String, TptpError>)
        requires
            old(self).wf(),
        ensures
            old(self).advanced(final(self)),
            reads(r, symbol_at(old(self).text@, old(self).pos as int), final(self).pos as int),
            r is Ok ==> final(self).pos > old(self).pos,
    {
        if self.at('"') {
            self.quoted('"')
        } else if self.at('$') {
            self.dollar_word()
        } else if self.pos < self.text.len() && (is_digit(self.text[self.pos]) || self.at('+')
            || self.at('-')) {
            self.number()
        } else {
            self.atomic_word()
        }
    }

    /// Reads a term.
    fn term(&mut self) -> (r: Result<Term, TptpError>)
        requires
            old(self).wf(),
        ensures
            old(self).advanced(final(self)),
            reads(r, term_at(old(self).text@, old(self).pos as int), final(self).pos as int),
            r is Ok ==> final(self).pos > old(self).pos,
        decreases old(self).rest(), 0int,
    {
        self.skip_spaces();
        if self.pos >= self.text.len() {
            return Err(TptpError::UnexpectedEnd);
        }
        if is_upper(self.text[self.pos]) {
            return match self.upper_word() {
                Ok(name) => Ok(Term::Variable(name)),
                Err(e) => Err(e),
            };
        }
        let name = match self.symbol() {
            Ok(n) => n,
            Err(e) => {
                return Err(e);
            },
        };
        if self.at('(') {
            self.pos = self.pos + 1;
            let args = match self.arguments() {
                Ok(a) => a,
                Err(e) => {
                    return Err(e);
                },
            };
            match self.expect(')') {
                Ok(_) => {
                    proof {
                        lemma_function_view(name, args);
                    }
                    Ok(Term::Function(name, args))
                },
                Err(e) => Err(e),
            }
        } else {
            let args: Vec<Term> = Vec::new();
            proof {
                lemma_function_view(name, args);
                assert(term_views(args@) =~= Seq::<TermT>::empty());
            }
            Ok(Term::Function(name, args))
        }
    }

    /// Reads terms with commas between them.
    fn arguments(&mut self) -> (r: Result<Vec<Term>, TptpError>)
        requires
            old(self).wf(),
        ensures
            old(self).advanced(final(self)),
            reads_terms(
                r,
                arguments_at(old(self).text@, old(self).pos as int, Seq::empty()),
                final(self).pos as int,
            ),
        decreases old(self).rest(), 1int,
    {
        let mut out: Vec<Term> = Vec::new();
        let ghost goal = arguments_at(self.text@, self.pos as int, Seq::empty());
        proof {
            assert(term_views(out@) =~= Seq::<TermT>::empty());
        }
        loop
            invariant
                old(self).advanced(self),
                arguments_at(self.text@, self.pos as int, term_views(out@)) == goal,
                arguments_at(old(self).text@, old(self).pos as int, Seq::empty()) == goal,
            decreases self.rest(),
        {
            let ghost before = term_views(out@);
            match self.term() {
                Ok(t) => {
                    out.push(t);
                    proof {
                        assert(term_views(out@) =~= before.push(t@));
                    }
                },
                Err(e) => {
                    return Err(e);
                },
            }
            if !self.eat(',') {
                return Ok(out);
            }
        }
    }

    /// Reads an atom: a predicate with its arguments, an equation or a disequation.
    fn atom(&mut self) -> (r: Result<Formula, TptpError>)
        requires
            old(self).wf(),
        ensures
            old(self).advanced(final(self)),
            reads(r, atom_at(old(self).text@, old(self).pos as int), final(self).pos as int),
            r is Ok ==> final(self).pos > old(self).pos,
    {
        let lhs = match self.term() {
            Ok(t) => t,
            Err(e) => {
                return Err(e);
            },
        };
        self.skip_spaces();
        if self.at('=') && !self.ahead(1, '>') {
            self.pos = self.pos + 1;
            return match self.term() {
                Ok(rhs) => Ok(equal(lhs, rhs)),
                Err(e) => Err(e),
            };
        }
        if self.at('!') && self.ahead(1, '=') {
            self.pos = self.pos + 2;
            return match self.term() {
                Ok(rhs) => Ok(Formula::Not(Box::new(equal(lhs, rhs)))),
                Err(e) => Err(e),
            };
        }
        match lhs {
            Term::Function(name, args) => {
                proof {
                    lemma_function_view(name, args);
                }
                Ok(Formula::Predicate(name, args))
            },
            Term::Variable(_) => Err(self.fail()),
        }
    }

    /// Reads a literal of a clause: an atom or a negated atom.
    fn literal(&mut self) -> (r: Result<Formula, TptpError>)
        requires
            old(self).wf(),
        ensures
            old(self).advanced(final(self)),
            reads(r, literal_at(old(self).text@, old(self).pos as int), final(self).pos as int),
            r is Ok ==> final(self).pos > old(self).pos,
    {
        if self.eat('~') {
            match self.atom() {
                Ok(f) => Ok(Formula::Not(Box::new(f))),
                Err(e) => Err(e),
            }
        } else {
            self.atom()
        }
    }

    /// Reads literals with bars between them.
    fn disjunction(&mut self) -> (r: Result<Formula, TptpError>)
        requires
            old(self).wf(),
        ensures
            old(self).advanced(final(self)),
            reads(
                r,
                disjunction_at(old(self).text@, old(self).pos as int),
                final(self).pos as int,
            ),
            r is Ok ==> final(self).pos > old(self).pos,
    {
        let mut lhs = match self.literal() {
            Ok(f) => f,
            Err(e) => {
                return Err(e);
            },
        };
        let ghost goal = more_literals_at(self.text@, self.pos as int, lhs@);
        loop
            invariant
                old(self).advanced(self),
                self.pos > old(self).pos,
                more_literals_at(self.text@, self.pos as int, lhs@) == goal,
                disjunction_at(old(self).text@, old(self).pos as int) == goal,
            decreases self.rest(),
        {
            if !self.eat('|') {
                return Ok(lhs);
            }
            let rhs = match self.literal() {
                Ok(f) => f,
                Err(e) => {
                    return Err(e);
                },
            };
            lhs = Formula::Or(Box::new(lhs), Box::new(rhs));
        }
    }

    /// Reads a formula in clause normal form, with or without brackets around it.
    fn cnf_formula(&mut self) -> (r: Result<Formula, TptpError>)
        requires
            old(self).wf(),
        ensures
            old(self).advanced(final(self)),
            reads(
                r,
                cnf_formula_at(old(self).text@, old(self).pos as int),
                final(self).pos as int,
            ),
            r is Ok ==> final(self).pos > old(self).pos,
    {
        if self.eat('(') {
            let f = match self.disjunction() {
                Ok(f) => f,
                Err(e) => {
                    return Err(e);
                },
            };
            match self.expect(')') {
                Ok(_) => Ok(f),
                Err(e) => Err(e),
            }
        } else {
            self.disjunction()
        }
    }

    /// Reads the variables of a quantifier, with commas between them.
    fn variables(&mut self) -> (r: Result<Vec<String>, TptpError>)
        requires
            old(self).wf(),
        ensures
            old(self).advanced(final(self)),
            reads_texts(
                r,
                variables_at(old(self).text@, old(self).pos as int, Seq::empty()),
                final(self).pos as int,
            ),
    {
        let mut out: Vec<String> = Vec::new();
        let ghost goal = variables_at(self.text@, self.pos as int, Seq::empty());
        proof {
            assert(texts(out@) =~= Seq::<Seq<char>>::empty());
        }
        loop
            invariant
                old(self).advanced(self),
                variables_at(self.text@, self.pos as int, texts(out@)) == goal,
                variables_at(old(self).text@, old(self).pos as int, Seq::empty()) == goal,
            decreases self.rest(),
        {
            let ghost before = texts(out@);
            self.skip_spaces();
            match self.upper_word() {
                Ok(v) => {
                    out.push(v);
                    proof {
                        assert(texts(out@) =~= before.push(v@));
                    }
                },
                Err(e) => {
                    return Err(e);
                },
            }
            if !self.eat(',') {
                return Ok(out);
            }
        }
    }

    /// Reads the variables of a quantifier in square brackets, and a colon.
    fn bound(&mut self) -> (r: Result<Vec<String>, TptpError>)
        requires
            old(self).wf(),
        ensures
            old(self).advanced(final(self)),
            reads_texts(r, bound_at(old(self).text@, old(self).pos as int), final(self).pos as int),
            r is Ok ==> final(self).pos > old(self).pos,
    {
        match self.expect('[') {
            Ok(_) => {},
            Err(e) => {
                return Err(e);
            },
        }
        let variables = match self.variables() {
            Ok(v) => v,
            Err(e) => {
                return Err(e);
            },
        };
        match self.expect(']') {
            Ok(_) => {},
            Err(e) => {
                return Err(e);
            },
        }
        match self.expect(':') {
            Ok(_) => Ok(variables),
            Err(e) => Err(e),
        }
    }

    /// Reads a unitary formula: quantified, negated, in brackets, or an atom.
    fn fof_unitary(&mut self) -> (r: Result<Formula, TptpError>)
        requires
            old(self).wf(),
        ensures
            old(self).advanced(final(self)),
            reads(r, unitary_at(old(self).text@, old(self).pos as int), final(self).pos as int),
            r is Ok ==> final(self).pos > old(self).pos,
        decreases old(self).rest(), 0int,
    {
        self.skip_spaces();
        if self.at('(') {
            self.pos = self.pos + 1;
            let f = match self.fof_logic() {
                Ok(f) => f,
                Err(e) => {
                    return Err(e);
                },
            };
            return match self.expect(')') {
                Ok(_) => Ok(f),
                Err(e) => Err(e),
            };
        }
        if self.at('~') {
            self.pos = self.pos + 1;
            return match self.fof_unitary() {
                Ok(f) => Ok(Formula::Not(Box::new(f))),
                Err(e) => Err(e),
            };
        }
        let universal = self.at('!');
        if (universal || self.at('?')) && !self.ahead(1, '=') {
            self.pos = self.pos + 1;
            let variables = match self.bound() {
                Ok(v) => v,
                Err(e) => {
                    return Err(e);
                },
            };
            return match self.fof_unitary() {
                Ok(f) => Ok(quantify(universal, variables, f)),
                Err(e) => Err(e),
            };
        }
        self.atom()
    }

    /// The connective that comes next, and its length.
    fn connective(&self) -> (r: Option<(u8, usize)>)
        requires
            self.wf(),
        ensures
            match connective_at(self.text@, self.pos as int) {
                Some((kind, width)) => r == Some((kind as u8, width as usize)) && 0 <= kind <= 5
                    && self.pos + width <= self.text.len(),
                None => r is None,
            },
    {
        if self.at('<') && self.ahead(1, '=') && self.ahead(2, '>') {
            Some((0, 3))
        } else if self.at('=') && self.ahead(1, '>') {
            Some((1, 2))
        } else if self.at('<') && self.ahead(1, '=') {
            Some((2, 2))
        } else if self.at('<') && self.ahead(1, '~') && self.ahead(2, '>') {
            Some((3, 3))
        } else if self.at('~') && self.ahead(1, '|') {
            Some((4, 2))
        } else if self.at('~') && self.ahead(1, '&') {
            Some((5, 2))
        } else {
            None
        }
    }

    /// Reads a formula: a unitary formula, or unitary formulae with one kind
    /// of connective between them.
    fn fof_logic(&mut self) -> (r: Result<Formula, TptpError>)
        requires
            old(self).wf(),
        ensures
            old(self).advanced(final(self)),
            reads(r, logic_at(old(self).text@, old(self).pos as int), final(self).pos as int),
            r is Ok ==> final(self).pos > old(self).pos,
        decreases old(self).rest(), 1int,
    {
        let mut lhs = match self.fof_unitary() {
            Ok(f) => f,
            Err(e) => {
                return Err(e);
            },
        };
        self.skip_spaces();
        proof {
            lemma_spaces_end(self.text@, self.pos as int);
        }
        if self.at('|') || self.at('&') {
            let conjunction = self.at('&');
            let ghost goal = chain_at(self.text@, self.pos as int, conjunction, lhs@);
            loop
                invariant
                    old(self).advanced(self),
                    self.pos > old(self).pos,
                    chain_at(self.text@, self.pos as int, conjunction, lhs@) == goal,
                    logic_at(old(self).text@, old(self).pos as int) == goal,
                decreases self.rest(),
            {
                if !self.eat(
                    if conjunction {
                        '&'
                    } else {
                        '|'
                    },
                ) {
                    return Ok(lhs);
                }
                let rhs = match self.fof_unitary() {
                    Ok(f) => f,
                    Err(e) => {
                        return Err(e);
                    },
                };
                lhs = if conjunction {
                    Formula::And(Box::new(lhs), Box::new(rhs))
                } else {
                    Formula::Or(Box::new(lhs), Box::new(rhs))
                };
            }
        }
        match self.connective() {
            None => Ok(lhs),
            Some((kind, width)) => {
                self.pos = self.pos + width;
                match self.fof_unitary() {
                    Ok(rhs) => Ok(join(kind, lhs, rhs)),
                    Err(e) => Err(e),
                }
            },
        }
    }

    /// Passes over the annotations of a formula, up to the closing bracket
    /// of the formula, which is not passed over.
    fn annotations(&mut self)
        requires
            old(self).wf(),
        ensures
            old(self).advanced(final(self)),
            final(self).pos == annotations_end(old(self).text@, old(self).pos as int, 0),
    {
        let mut depth: usize = 0;
        let ghost goal = annotations_end(self.text@, self.pos as int, 0);
        while self.pos < self.text.len()
            invariant
                old(self).advanced(self),
                depth <= self.pos,
                annotations_end(self.text@, self.pos as int, depth as nat) == goal,
                annotations_end(old(self).text@, old(self).pos as int, 0) == goal,
            decreases self.rest(),
        {
            let c = self.text[self.pos];
            if c == '\'' || c == '"' {
                match self.quoted(c) {
                    Ok(_) => {},
                    Err(_) => {
                        return ;
                    },
                }
            } else {
                if c == '(' || c == '[' {
                    depth = depth + 1;
                } else if c == ')' || c == ']' {
                    if depth == 0 {
                        return ;
                    }
                    depth = depth - 1;
                }
                self.pos = self.pos + 1;
            }
        }
    }

    /// Passes over the end of a formula with its name and role: the
    /// annotations, a closing bracket and a full stop.
    fn closed(&mut self) -> (r: Result<(), TptpError>)
        requires
            old(self).wf(),
        ensures
            old(self).advanced(final(self)),
            passes(r, closed_at(old(self).text@, old(self).pos as int), final(self).pos as int),
    {
        if self.eat(',') {
            self.annotations();
        }
        match self.expect(')') {
            Ok(_) => {},
            Err(e) => {
                return Err(e);
            },
        }
        self.expect('.')
    }

    /// Reads the name and the role of a formula, with the opening bracket
    /// before them and a comma after each.
    fn heading(&mut self) -> (r: Result<(String, String), TptpError>)
        requires
            old(self).wf(),
        ensures
            old(self).advanced(final(self)),
            match heading_at(old(self).text@, old(self).pos as int) {
                Ok((name, role, end)) => r matches Ok(x) && x.0@ == name && x.1@ == role
                    && final(self).pos == end,
                Err(e) => r matches Err(x) && x == e,
            },
    {
        match self.expect('(') {
            Ok(_) => {},
            Err(e) => {
                return Err(e);
            },
        }
        let name = match self.name() {
            Ok(n) => n,
            Err(e) => {
                return Err(e);
            },
        };
        match self.expect(',') {
            Ok(_) => {},
            Err(e) => {
                return Err(e);
            },
        }
        self.skip_spaces();
        let role = match self.lower_word() {
            Ok(n) => n,
            Err(e) => {
                return Err(e);
            },
        };
        match self.expect(',') {
            Ok(_) => Ok((name, role)),
            Err(e) => Err(e),
        }
    }

    /// Reads a formula with its name and role, after the word `cnf` or `fof`.
    fn annotated(&mut self, clause_form: bool) -> (r: Result<(String, String, Formula), TptpError>)
        requires
            old(self).wf(),
        ensures
            old(self).advanced(final(self)),
            reads_formula(
                r,
                annotated_at(old(self).text@, old(self).pos as int, clause_form),
                final(self).pos as int,
            ),
    {
        let (name, role) = match self.heading() {
            Ok(h) => h,
            Err(e) => {
                return Err(e);
            },
        };
        let formula = if clause_form {
            self.cnf_formula()
        } else {
            self.fof_logic()
        };
        let formula = match formula {
            Ok(f) => f,
            Err(e) => {
                return Err(e);
            },
        };
        match self.closed() {
            Ok(_) => Ok((name, role, formula)),
            Err(e) => Err(e),
        }
    }

    /// Reads the names of an include directive, with commas between them.
    fn names(&mut self) -> (r: Result<Vec<String>, TptpError>)
        requires
            old(self).wf(),
        ensures
            old(self).advanced(final(self)),
            reads_texts(
                r,
                names_at(old(self).text@, old(self).pos as int, Seq::empty()),
                final(self).pos as int,
            ),
    {
        let mut out: Vec<String> = Vec::new();
        let ghost goal = names_at(self.text@, self.pos as int, Seq::empty());
        proof {
            assert(texts(out@) =~= Seq::<Seq<char>>::empty());
        }
        loop
            invariant
                old(self).advanced(self),
                names_at(self.text@, self.pos as int, texts(out@)) == goal,
                names_at(old(self).text@, old(self).pos as int, Seq::empty()) == goal,
            decreases self.rest(),
        {
            let ghost before = texts(out@);
            match self.name() {
                Ok(n) => {
                    out.push(n);
                    proof {
                        assert(texts(out@) =~= before.push(n@));
                    }
                },
                Err(e) => {
                    return Err(e);
                },
            }
            if !self.eat(',') {
                return Ok(out);
            }
        }
    }

    /// Reads the names to take from an included file, if any are given.
    fn selection(&mut self) -> (r: Result<Option<Vec<String>>, TptpError>)
        requires
            old(self).wf(),
        ensures
            old(self).advanced(final(self)),
            match selection_at(old(self).text@, old(self).pos as int) {
                Ok((names, end)) => r matches Ok(x) && final(self).pos == end && match names {
                    Some(list) => x matches Some(y) && texts(y@) == list,
                    None => x is None,
                },
                Err(e) => r matches Err(x) && x == e,
            },
    {
        if !self.eat(',') {
            return Ok(None);
        }
        match self.expect('[') {
            Ok(_) => {},
            Err(e) => {
                return Err(e);
            },
        }
        let list = match self.names() {
            Ok(l) => l,
            Err(e) => {
                return Err(e);
            },
        };
        match self.expect(']') {
            Ok(_) => Ok(Some(list)),
            Err(e) => Err(e),
        }
    }

    /// Reads an include directive, after the word `include`.
    fn inclusion(&mut self) -> (r: Result<Include, TptpError>)
        requires
            old(self).wf(),
        ensures
            old(self).advanced(final(self)),
            match inclusion_at(old(self).text@, old(self).pos as int) {
                Ok((file, names, end)) => r matches Ok(x) && final(self).pos == end && entry_view(
                    TptpInput::Incl(x),
                ) == EntryT::Include(file, names),
                Err(e) => r matches Err(x) && x == e,
            },
    {
        match self.expect('(') {
            Ok(_) => {},
            Err(e) => {
                return Err(e);
            },
        }
        self.skip_spaces();
        let file = match self.quoted('\'') {
            Ok(n) => n,
            Err(e) => {
                return Err(e);
            },
        };
        let names = match self.selection() {
            Ok(n) => n,
            Err(e) => {
                return Err(e);
            },
        };
        match self.expect(')') {
            Ok(_) => {},
            Err(e) => {
                return Err(e);
            },
        }
        match self.expect('.') {
            Ok(_) => Ok((file, names)),
            Err(e) => Err(e),
        }
    }

    /// Reads one entry of a problem: a formula or an include directive.
    fn input(&mut self) -> (r: Result<TptpInput, TptpError>)
        requires
            old(self).wf(),
        ensures
            old(self).advanced(final(self)),
            match entry_at(old(self).text@, old(self).pos as int) {
                Ok((entry, end)) => r matches Ok(x) && entry_view(x) == entry && final(self).pos
                    == end,
                Err(e) => r matches Err(x) && x == e,
            },
            r is Ok ==> final(self).pos > old(self).pos,
    {
        self.skip_spaces();
        let word = match self.lower_word() {
            Ok(w) => w,
            Err(e) => {
                return Err(e);
            },
        };
        if is_word(&word, "cnf") {
            match self.annotated(true) {
                Ok(f) => Ok(TptpInput::AnnForm(AnnotatedFormula::Cnf(f))),
                Err(e) => Err(e),
            }
        } else if is_word(&word, "fof") {
            match self.annotated(false) {
                Ok(f) => Ok(TptpInput::AnnForm(AnnotatedFormula::Fof(f))),
                Err(e) => Err(e),
            }
        } else if is_word(&word, "include") {
            match self.inclusion() {
                Ok(i) => Ok(TptpInput::Incl(i)),
                Err(e) => Err(e),
            }
        } else {
            Err(self.fail())
        }
    }

    /// Whether only spaces are left.
    fn at_end(&mut self) -> (r: bool)
        requires
            old(self).wf(),
        ensures
            old(self).advanced(final(self)),
            final(self).pos == spaces_end(old(self).text@, old(self).pos as int),
            r == (final(self).pos >= final(self).text.len()),
    {
        self.skip_spaces();
        self.pos >= self.text.len()
    }

    /// Ends the reading of what a text holds alone: only spaces may follow.
    fn end<T>(&mut self, value: T) -> (r: Result<T, TptpError>)
        requires
            old(self).wf(),
        ensures
            r == alone(old(self).text@, Ok::<(T, int), TptpError>((value, old(self).pos as int))),
    {
        if self.at_end() {
            Ok(value)
        } else {
            Err(self.fail())
        }
    }
}

/// The equation of two terms.
fn equal(lhs: Term, rhs: Term) -> (r: Formula)
    ensures
        r@ == equation(lhs@, rhs@),
{
    let mut args: Vec<Term> = Vec::new();
    args.push(lhs);
    args.push(rhs);
    proof {
        assert(term_views(args@) =~= seq![lhs@, rhs@]);
    }
    Formula::Predicate("=".to_owned(), args)
}

/// Two formulae joined by a connective.
fn join(kind: u8, lhs: Formula, rhs: Formula) -> (r: Formula)
    ensures
        r@ == binary(kind as int, lhs@, rhs@),
{
    proof {
        reveal_with_fuel(crate::tptp_parser::ast::formula_view, 3);
    }
    let (l, r) = (Box::new(lhs), Box::new(rhs));
    if kind == 0 {
        Formula::Equivalent(l, r)
    } else if kind == 1 {
        Formula::Implies(l, r)
    } else if kind == 2 {
        Formula::Implies(r, l)
    } else if kind == 3 {
        Formula::Not(Box::new(Formula::Equivalent(l, r)))
    } else if kind == 4 {
        Formula::Not(Box::new(Formula::Or(l, r)))
    } else {
        Formula::Not(Box::new(Formula::And(l, r)))
    }
}

/// Binds the variables before a formula, the last one innermost.
fn quantify(universal: bool, variables: Vec<String>, f: Formula) -> (r: Formula)
    ensures
        r@ == quantified(universal, texts(variables@), f@),
{
    let mut variables = variables;
    let mut f = f;
    let ghost goal = quantified(universal, texts(variables@), f@);
    while variables.len() > 0
        invariant
            quantified(universal, texts(variables@), f@) == goal,
        decreases variables.len(),
    {
        let ghost before = texts(variables@);
        let v = variables.pop().unwrap();
        proof {
            assert(texts(variables@) =~= before.drop_last());
            assert(v@ == before.last());
        }
        f = if universal {
            Formula::Forall(v, Box::new(f))
        } else {
            Formula::Exists(v, Box::new(f))
        };
    }
    f
}

/// Whether `r` holds the entries that the grammar gives, or the same error.
pub open spec fn reads_entries(
    r: Result<Vec<TptpInput>, TptpError>,
    want: Result<Seq<EntryT>, TptpError>,
) -> bool {
    match want {
        Ok(v) => r matches Ok(x) && entries(x@) == v,
        Err(e) => r matches Err(x) && x == e,
    }
}

/// Reads the entries of a problem from a text without comments.
pub fn parse_inputs(s: &str) -> (r: Result<Vec<TptpInput>, TptpError>)
    ensures
        reads_entries(r, problem(s@)),
{
    let mut reader = Reader::new(s);
    let mut out: Vec<TptpInput> = Vec::new();
    proof {
        assert(entries(out@) =~= Seq::<EntryT>::empty());
    }
    loop
        invariant
            reader.wf(),
            reader.text@ == s@,
            entries_at(s@, reader.pos as int, entries(out@)) == problem(s@),
        decreases reader.rest(),
    {
        if reader.at_end() {
            return Ok(out);
        }
        let ghost before = entries(out@);
        match reader.input() {
            Ok(i) => {
                out.push(i);
                proof {
                    assert(entries(out@) =~= before.push(entry_view(i)));
                }
            },
            Err(e) => {
                return Err(e);
            },
        }
    }
}

/// Reads the entries of a problem from a text: the comments and line ends
/// are removed, then the entries are read. Where a pattern of the comments
/// is refused the answer is the error `Comments`; else it is what the
/// grammar gives for the text without comments.
pub fn parse_tptp(s: &str) -> (r: Result<Vec<TptpInput>, TptpError>)
    ensures
        if patterns_compile() {
            reads_entries(r, problem(cleaned(s@)))
        } else {
            r == Err::<Vec<TptpInput>, TptpError>(TptpError::Comments)
        },
{
    match preprocess(s) {
        Some(text) => parse_inputs(text.as_str()),
        None => Err(TptpError::Comments),
    }
}

/// The name of a formula.
pub open spec fn formula_name(af: AnnotatedFormula) -> Seq<char> {
    match af {
        AnnotatedFormula::Cnf(f) => f.0@,
        AnnotatedFormula::Fof(f) => f.0@,
    }
}

/// Whether the formula has the given name.
pub fn annotated_formula_names_match(af: &AnnotatedFormula, s: &str) -> (r: bool)
    ensures
        r == (formula_name(*af) == s@),
{
    match af {
        AnnotatedFormula::Cnf(f) => is_word(&f.0, s),
        AnnotatedFormula::Fof(f) => is_word(&f.0, s),
    }
}

/// Whether one of the names is the name of the formula.
pub open spec fn selected(af: AnnotatedFormula, names: Seq<String>) -> bool {
    exists|i: int| 0 <= i < names.len() && (#[trigger] names[i])@ == formula_name(af)
}

/// Whether a formula is taken from an included file: where names are
/// given, only a formula of one of these names.
pub fn include_selects(af: &AnnotatedFormula, names: &Option<Vec<String>>) -> (r: bool)
    ensures
        r == match names {
            Some(list) => selected(*af, list@),
            None => true,
        },
{
    match names {
        None => true,
        Some(list) => {
            let n = list.len();
            let mut i: usize = 0;
            while i < n
                invariant
                    0 <= i <= n,
                    n == list@.len(),
                    *names == Some(*list),
                    forall|j: int| 0 <= j < i ==> (#[trigger] list@[j])@ != formula_name(*af),
                decreases n - i,
            {
                if annotated_formula_names_match(af, list[i].as_str()) {
                    proof {
                        assert(list@[i as int]@ == formula_name(*af));
                    }
                    return true;
                }
                i += 1;
            }
            false
        },
    }
}

/// The formula in clause normal form, with its name and role, that a text
/// holds alone, behind the word `cnf`.
pub open spec fn clause_alone(text: Seq<char>) -> Result<
    (Seq<char>, Seq<char>, FormulaT),
    TptpError,
> {
    match lower_word_at(text, spaces_end(text, 0)) {
        Err(e) => Err(e),
        Ok((word, end)) => if word != "cnf"@ {
            Err(TptpError::UnexpectedCharacter(0))
        } else {
            match annotated_at(text, end, true) {
                Err(e) => Err(e),
                Ok((name, role, f, after)) => alone(
                    text,
                    Ok::<((Seq<char>, Seq<char>, FormulaT), int), TptpError>(
                        ((name, role, f), after),
                    ),
                ),
            }
        },
    }
}

/// Reads a formula in clause normal form with its name and role from a text
/// that holds nothing else.
pub fn parse_cnf_annotated(s: &str) -> (r: Result<(String, String, Formula), TptpError>)
    ensures
        match clause_alone(s@) {
            Ok((name, role, f)) => r matches Ok(x) && x.0@ == name && x.1@ == role && x.2@ == f,
            Err(e) => r matches Err(x) && x == e,
        },
{
    let mut reader = Reader::new(s);
    reader.skip_spaces();
    let word = match reader.lower_word() {
        Ok(w) => w,
        Err(e) => {
            return Err(e);
        },
    };
    if !is_word(&word, "cnf") {
        return Err(TptpError::UnexpectedCharacter(0));
    }
    let f = match reader.annotated(true) {
        Ok(f) => f,
        Err(e) => {
            return Err(e);
        },
    };
    reader.end(f)
}

/// What a text holds and nothing else: what stands at its start and ends
/// at its end.
pub open spec fn exactly(text: Seq<char>, read: Result<(Seq<char>, int), TptpError>) -> Result<
    Seq<char>,
    TptpError,
> {
    match read {
        Err(e) => Err(e),
        Ok((value, end)) => if end == text.len() {
            Ok(value)
        } else {
            Err(failure(text, end))
        },
    }
}

/// Whether `r` is the text that the grammar gives, or the same error.
pub open spec fn gives(r: Result<String, TptpError>, want: Result<Seq<char>, TptpError>) -> bool {
    match want {
        Ok(v) => r matches Ok(x) && x@ == v,
        Err(e) => r matches Err(x) && x == e,
    }
}

/// Reads a single-quoted name from a text that holds nothing else: the
/// name is what stands between the two quotes.
pub fn parse_single_quoted(s: &str) -> (r: Result<String, TptpError>)
    ensures
        gives(r, exactly(s@, quoted_at(s@, 0, '\''))),
        r matches Ok(name) ==> quoted_text(s@, '\'', name@),
{
    let mut reader = Reader::new(s);
    let name = match reader.quoted('\'') {
        Ok(n) => n,
        Err(e) => {
            return Err(e);
        },
    };
    if reader.pos == reader.text.len() {
        proof {
            lemma_closing(s@, 1, 1, '\'', None);
            assert(s@ =~= seq!['\''] + name@ + seq!['\'']);
        }
        Ok(name)
    } else {
        Err(reader.fail())
    }
}

/// The include directive that a text holds alone, behind the word `include`.
pub open spec fn include_alone(text: Seq<char>) -> Result<EntryT, TptpError> {
    match lower_word_at(text, spaces_end(text, 0)) {
        Err(e) => Err(e),
        Ok((word, end)) => if word != "include"@ {
            Err(TptpError::UnexpectedCharacter(0))
        } else {
            match inclusion_at(text, end) {
                Err(e) => Err(e),
                Ok((file, names, after)) => alone(
                    text,
                    Ok::<(EntryT, int), TptpError>((EntryT::Include(file, names), after)),
                ),
            }
        },
    }
}

/// Reads an include directive from a text that holds nothing else.
pub fn parse_include(s: &str) -> (r: Result<Include, TptpError>)
    ensures
        match include_alone(s@) {
            Ok(entry) => r matches Ok(x) && entry_view(TptpInput::Incl(x)) == entry,
            Err(e) => r matches Err(x) && x == e,
        },
{
    let mut reader = Reader::new(s);
    reader.skip_spaces();
    let word = match reader.lower_word() {
        Ok(w) => w,
        Err(e) => {
            return Err(e);
        },
    };
    if !is_word(&word, "include") {
        return Err(TptpError::UnexpectedCharacter(0));
    }
    let i = match reader.inclusion() {
        Ok(i) => i,
        Err(e) => {
            return Err(e);
        },
    };
    if reader.at_end() {
        Ok(i)
    } else {
        Err(reader.fail())
    }
}

/// Reads a distinct object, a name in double quotes, from a text that holds
/// nothing else: the name is what stands between the two quotes.
pub fn parse_distinct_object(s: &str) -> (r: Result<String, TptpError>)
    ensures
        gives(r, exactly(s@, quoted_at(s@, 0, '"'))),
        r matches Ok(name) ==> quoted_text(s@, '"', name@),
{
    let mut reader = Reader::new(s);
    let name = match reader.quoted('"') {
        Ok(n) => n,
        Err(e) => {
            return Err(e);
        },
    };
    if reader.pos == reader.text.len() {
        proof {
            lemma_closing(s@, 1, 1, '"', None);
            assert(s@ =~= seq!['"'] + name@ + seq!['"']);
        }
        Ok(name)
    } else {
        Err(reader.fail())
    }
}

/// Reads a word with a dollar sign before it from a text that holds
/// nothing else. The word is the text, and it is read exactly when the text
/// is a dollar sign, a small letter and then letters, digits and underscores.
pub fn parse_dollar_word(s: &str) -> (r: Result<String, TptpError>)
    ensures
        gives(r, exactly(s@, dollar_word_at(s@, 0))),
        r is Ok == dollar_word_text(s@),
        r matches Ok(name) ==> name@ == s@,
{
    let mut reader = Reader::new(s);
    proof {
        lemma_word_end(s@, 2);
    }
    let name = match reader.dollar_word() {
        Ok(n) => n,
        Err(e) => {
            return Err(e);
        },
    };
    if reader.pos == reader.text.len() {
        proof {
            assert(s@.subrange(0, s@.len() as int) =~= s@);
        }
        Ok(name)
    } else {
        Err(reader.fail())
    }
}

} // verus!
