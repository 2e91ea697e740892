//! A parser for formulae such as `forall x. (P(x) ==> exists y. Q(x, y))`.
//!
//! The connectives are `~`, `/\`, `\/`, `==>` and `<=>`, binding in this
//! order from the strongest to the weakest. A quantifier, `forall` or
//! `exists` with a variable and a dot, reaches as far to the right as
//! possible. In an argument place a name with arguments in brackets is a
//! function symbol applied to them; a name alone is a variable.
use crate::cnf::ast::{views, Formula, FormulaV, Term};
use crate::parser::grammar::{
    byte_at, closed_at, exists_word, first_at, forall_word, formula_at, interned, joined,
    joined_at, lemma_skip, more_terms_at, moved, name_end,
    operator_at, operator_len, parsed, skip, symbol_at, term_at, terms_at,
    unary_at, unexpected_at, variable_at, Reading,
};
use crate::term::TermV;
use vstd::prelude::*;
use vstd::string::StringSliceAdditionalSpecFns;

verus! {

/// Why a text could not be read.
#[derive(Debug, Clone, Copy, PartialEq, Eq)]
pub enum ParseError {
    /// The text ended where more was expected.
    UnexpectedEnd,
    /// The character at this place was not expected.
    UnexpectedCharacter(usize),
    /// There are more names than can be numbered.
    TooManyNames,
}

/// The names of a formula. The symbol with the identifier `i` is the
/// `i`-th of `symbols`, counted from 1; the variable with the identifier
/// `-i` is the `i`-th of `variables`.
#[derive(Debug)]
pub struct SymbolTable {
    pub symbols: Vec<Vec<u8>>,
    pub variables: Vec<Vec<u8>>,
}

/// The most names of a kind that a table holds.
pub const MAX_NAMES: usize = 0x7fff_fff0;

/// Whether every variable of the term is one of the first `vars` variables
/// and every function symbol one of the first `syms` symbols.
pub open spec fn term_within(t: TermV, vars: int, syms: int) -> bool
    decreases t,
{
    match t {
        TermV::Var(x) => -vars <= x <= -1,
        TermV::Fun(f, _, args) => 1 <= f <= syms && forall|i: int|
            0 <= i < args.len() ==> term_within(#[trigger] args[i], vars, syms),
    }
}

/// Whether all the terms are within the first variables and symbols.
pub open spec fn terms_within(ts: Seq<TermV>, vars: int, syms: int) -> bool {
    forall|i: int| 0 <= i < ts.len() ==> term_within(#[trigger] ts[i], vars, syms)
}

/// Whether the formula has no truth value, and every variable of it is one
/// of the first `vars` variables and every symbol one of the first `syms`
/// symbols.
pub open spec fn within(f: FormulaV, vars: int, syms: int) -> bool
    decreases f,
{
    match f {
        FormulaV::True | FormulaV::False => false,
        FormulaV::Predicate(id, args) => 1 <= id <= syms && terms_within(args, vars, syms),
        FormulaV::Not(p) => within(*p, vars, syms),
        FormulaV::And(p, q) | FormulaV::Or(p, q) | FormulaV::Implies(p, q) | FormulaV::Equivalent(
            p,
            q,
        ) => within(*p, vars, syms) && within(*q, vars, syms),
        FormulaV::Forall(x, p) | FormulaV::Exists(x, p) => -vars <= x <= -1 && within(
            *p,
            vars,
            syms,
        ),
    }
}

/// What is within some names is within more names.
pub proof fn lemma_term_within_grows(t: TermV, vars: int, syms: int, vars2: int, syms2: int)
    requires
        term_within(t, vars, syms),
        vars <= vars2,
        syms <= syms2,
    ensures
        term_within(t, vars2, syms2),
    decreases t,
{
    match t {
        TermV::Var(_) => {},
        TermV::Fun(_, _, args) => {
            assert forall|i: int| 0 <= i < args.len() implies term_within(
                #[trigger] args[i],
                vars2,
                syms2,
            ) by {
                lemma_term_within_grows(args[i], vars, syms, vars2, syms2);
            }
        },
    }
}

/// What is within some names is within more names.
pub proof fn lemma_within_grows(f: FormulaV, vars: int, syms: int, vars2: int, syms2: int)
    requires
        within(f, vars, syms),
        vars <= vars2,
        syms <= syms2,
    ensures
        within(f, vars2, syms2),
    decreases f,
{
    match f {
        FormulaV::Predicate(_, args) => {
            assert forall|i: int| 0 <= i < args.len() implies term_within(
                #[trigger] args[i],
                vars2,
                syms2,
            ) by {
                lemma_term_within_grows(args[i], vars, syms, vars2, syms2);
            }
        },
        FormulaV::Not(p) => lemma_within_grows(*p, vars, syms, vars2, syms2),
        FormulaV::And(p, q) | FormulaV::Or(p, q) | FormulaV::Implies(p, q) | FormulaV::Equivalent(
            p,
            q,
        ) => {
            lemma_within_grows(*p, vars, syms, vars2, syms2);
            lemma_within_grows(*q, vars, syms, vars2, syms2);
        },
        FormulaV::Forall(_, p) | FormulaV::Exists(_, p) => lemma_within_grows(
            *p,
            vars,
            syms,
            vars2,
            syms2,
        ),
        _ => {},
    }
}

/// Whether both hold the same bytes.
pub fn same_bytes(a: &Vec<u8>, b: &Vec<u8>) -> (r: bool)
    ensures
        r == (a@ == b@),
{
    if a.len() != b.len() {
        return false;
    }
    let n = a.len();
    let mut i: usize = 0;
    while i < n
        invariant
            0 <= i <= n,
            n == a.len(),
            n == b.len(),
            forall|j: int| 0 <= j < i ==> a[j] == b[j],
        decreases n - i,
    {
        if a[i] != b[i] {
            return false;
        }
        i += 1;
    }
    proof {
        assert(a@ =~= b@);
    }
    true
}

/// The place of the first name that holds the given bytes.
pub fn find_name(names: &Vec<Vec<u8>>, name: &Vec<u8>) -> (r: Option<usize>)
    ensures
        match r {
            Some(i) => i < names.len() && names[i as int]@ == name@ && forall|j: int|
                0 <= j < i ==> (#[trigger] names[j])@ != name@,
            None => forall|j: int| 0 <= j < names.len() ==> (#[trigger] names[j])@ != name@,
        },
{
    let n = names.len();
    let mut i: usize = 0;
    while i < n
        invariant
            0 <= i <= n,
            n == names.len(),
            forall|j: int| 0 <= j < i ==> (#[trigger] names[j])@ != name@,
        decreases n - i,
    {
        if same_bytes(&names[i], name) {
            return Some(i);
        }
        i += 1;
    }
    None
}

/// The names as sequences of bytes.
pub open spec fn names(v: Seq<Vec<u8>>) -> Seq<Seq<u8>> {
    Seq::new(v.len(), |i: int| v[i]@)
}

/// The place of the name among the names, where it is added if it is new
/// and there is room.
pub fn intern(names: &mut Vec<Vec<u8>>, name: Vec<u8>) -> (r: Option<usize>)
    requires
        old(names).len() <= MAX_NAMES,
    ensures
        final(names).len() <= MAX_NAMES,
        final(names).len() >= old(names).len(),
        match interned(crate::parser::internal_parser::names(old(names)@), name@) {
            Some((i, after)) => r == Some(i as usize) && i < final(names).len()
                && crate::parser::internal_parser::names(final(names)@) == after,
            None => r is None && final(names)@ == old(names)@,
        },
{
    let ghost before = crate::parser::internal_parser::names(names@);
    match find_name(names, &name) {
        Some(i) => {
            proof {
                assert(first_at(before, name@, i as int));
                let j = choose|j: int| first_at(before, name@, j);
                assert(j == i);
            }
            Some(i)
        },
        None => {
            proof {
                assert forall|j: int| !first_at(before, name@, j) by {
                    if 0 <= j < before.len() {
                        assert(names[j]@ != name@);
                    }
                }
            }
            if names.len() >= MAX_NAMES {
                None
            } else {
                names.push(name);
                proof {
                    assert(crate::parser::internal_parser::names(names@) =~= before.push(name@));
                }
                Some(names.len() - 1)
            }
        },
    }
}

/// The bytes of a text.
pub fn bytes_of(s: &str) -> (v: Vec<u8>)
    ensures
        v@ == s.spec_bytes(),
{
    let b = s.as_bytes();
    let mut v: Vec<u8> = Vec::new();
    let n = b.len();
    let mut i: usize = 0;
    while i < n
        invariant
            0 <= i <= n,
            n == b@.len(),
            v@ == b@.take(i as int),
        decreases n - i,
    {
        v.push(b[i]);
        proof {
            assert(v@ =~= b@.take(i as int + 1));
        }
        i += 1;
    }
    proof {
        assert(b@.take(n as int) =~= b@);
    }
    v
}

impl SymbolTable {
    /// A table without names.
    pub fn new() -> (t: SymbolTable)
        ensures
            t.symbols.len() == 0,
            t.variables.len() == 0,
    {
        SymbolTable { symbols: Vec::new(), variables: Vec::new() }
    }

    /// The identifier of the function or predicate symbol with the given name.
    pub fn symbol(&self, name: &str) -> (r: Option<i64>)
        requires
            self.symbols.len() <= MAX_NAMES,
        ensures
            match r {
                Some(id) => 1 <= id <= self.symbols.len() && self.symbols[id - 1]@
                    == name.spec_bytes(),
                None => forall|j: int|
                    0 <= j < self.symbols.len() ==> (#[trigger] self.symbols[j])@
                        != name.spec_bytes(),
            },
    {
        match find_name(&self.symbols, &bytes_of(name)) {
            Some(i) => Some(i as i64 + 1),
            None => None,
        }
    }

    /// The identifier of the variable with the given name.
    pub fn variable(&self, name: &str) -> (r: Option<i64>)
        requires
            self.variables.len() <= MAX_NAMES,
        ensures
            match r {
                Some(id) => -self.variables.len() <= id <= -1 && self.variables[-id - 1]@
                    == name.spec_bytes(),
                None => forall|j: int|
                    0 <= j < self.variables.len() ==> (#[trigger] self.variables[j])@
                        != name.spec_bytes(),
            },
    {
        match find_name(&self.variables, &bytes_of(name)) {
            Some(i) => Some(-(i as i64) - 1),
            None => None,
        }
    }
}

/// A text that is being read, the place that was reached, and the names
/// that were found.
pub struct Parser {
    pub input: Vec<u8>,
    pub pos: usize,
    pub table: SymbolTable,
}

impl Parser {
    /// Whether the place is in the text and the names can be numbered.
    pub open spec fn wf(&self) -> bool {
        &&& self.pos <= self.input.len()
        &&& self.table.symbols.len() <= MAX_NAMES
        &&& self.table.variables.len() <= MAX_NAMES
    }

    /// The place that was reached and the names that were found.
    pub open spec fn reading(&self) -> Reading {
        Reading {
            pos: self.pos as int,
            symbols: names(self.table.symbols@),
            variables: names(self.table.variables@),
        }
    }

    /// Whether `next` is this parser further on in the same text, with the
    /// same or more names.
    pub open spec fn advanced(&self, next: &Parser) -> bool {
        &&& next.wf()
        &&& next.input@ == self.input@
        &&& self.pos <= next.pos
        &&& self.table.symbols.len() <= next.table.symbols.len()
        &&& self.table.variables.len() <= next.table.variables.len()
    }

    /// How much of the text is left.
    pub open spec fn rest(&self) -> int {
        self.input.len() - self.pos
    }

    /// Passes over blanks, tabs and line ends.
    fn skip_spaces(&mut self)
        requires
            old(self).wf(),
        ensures
            old(self).advanced(final(self)),
            final(self).table == old(self).table,
            final(self).pos == skip(old(self).input@, old(self).pos as int),
    {
        while self.pos < self.input.len() && (self.input[self.pos] == 32 || self.input[self.pos]
            == 9 || self.input[self.pos] == 10 || self.input[self.pos] == 13)
            invariant
                old(self).advanced(self),
                self.table == old(self).table,
                skip(self.input@, self.pos as int) == skip(old(self).input@, old(self).pos as int),
            decreases self.input.len() - self.pos,
        {
            self.pos = self.pos + 1;
        }
    }

    /// Passes over the byte `c` after any spaces, if it comes next.
    fn eat(&mut self, c: u8) -> (r: bool)
        requires
            old(self).wf(),
        ensures
            old(self).advanced(final(self)),
            final(self).table == old(self).table,
            r == byte_at(old(self).input@, skip(old(self).input@, old(self).pos as int), c),
            final(self).pos == skip(old(self).input@, old(self).pos as int) + (if r {
                1int
            } else {
                0int
            }),
    {
        self.skip_spaces();
        if self.pos < self.input.len() && self.input[self.pos] == c {
            self.pos = self.pos + 1;
            true
        } else {
            false
        }
    }

    /// Passes over the connective of a level after any spaces, if it comes next.
    fn eat_operator(&mut self, level: u8) -> (r: bool)
        requires
            old(self).wf(),
            1 <= level <= 4,
        ensures
            old(self).advanced(final(self)),
            final(self).table == old(self).table,
            r == operator_at(
                old(self).input@,
                skip(old(self).input@, old(self).pos as int),
                level as nat,
            ),
            final(self).pos == skip(old(self).input@, old(self).pos as int) + (if r {
                operator_len(level as nat)
            } else {
                0int
            }),
    {
        self.skip_spaces();
        let left = self.input.len() - self.pos;
        let found = if level == 1 {
            left >= 2 && self.input[self.pos] == 47 && self.input[self.pos + 1] == 92
        } else if level == 2 {
            left >= 2 && self.input[self.pos] == 92 && self.input[self.pos + 1] == 47
        } else if level == 3 {
            left >= 3 && self.input[self.pos] == 61 && self.input[self.pos + 1] == 61
                && self.input[self.pos + 2] == 62
        } else {
            left >= 3 && self.input[self.pos] == 60 && self.input[self.pos + 1] == 61
                && self.input[self.pos + 2] == 62
        };
        if found {
            self.pos = self.pos + (if level <= 2 {
                2
            } else {
                3
            });
        }
        found
    }

    /// The error for what comes next where it was not expected.
    fn unexpected(&self) -> (e: ParseError)
        ensures
            e == unexpected_at(self.input@, self.pos as int),
    {
        if self.pos < self.input.len() {
            ParseError::UnexpectedCharacter(self.pos)
        } else {
            ParseError::UnexpectedEnd
        }
    }

    /// Reads a name after any spaces.
    fn name(&mut self) -> (r: Result<Vec<u8>, ParseError>)
        requires
            old(self).wf(),
        ensures
            old(self).advanced(final(self)),
            final(self).table == old(self).table,
            ({
                let start = skip(old(self).input@, old(self).pos as int);
                let end = name_end(old(self).input@, start);
                match r {
                    Ok(n) => start < end && n@ == old(self).input@.subrange(start, end)
                        && final(self).pos == end,
                    Err(e) => start == end && e == unexpected_at(old(self).input@, start),
                }
            }),
    {
        self.skip_spaces();
        let ghost start = self.pos as int;
        let mut out: Vec<u8> = Vec::new();
        while self.pos < self.input.len() && ((48 <= self.input[self.pos] && self.input[self.pos]
            <= 57) || (65 <= self.input[self.pos] && self.input[self.pos] <= 90) || (97
            <= self.input[self.pos] && self.input[self.pos] <= 122) || self.input[self.pos] == 95)
            invariant
                old(self).advanced(self),
                self.table == old(self).table,
                0 <= start <= self.pos,
                out@ == self.input@.subrange(start, self.pos as int),
                name_end(self.input@, self.pos as int) == name_end(self.input@, start),
            decreases self.input.len() - self.pos,
        {
            out.push(self.input[self.pos]);
            self.pos = self.pos + 1;
            proof {
                assert(out@ =~= self.input@.subrange(start, self.pos as int));
            }
        }
        if out.len() == 0 {
            Err(self.unexpected())
        } else {
            Ok(out)
        }
    }

    /// The identifier of a symbol name.
    fn symbol_id(&mut self, name: Vec<u8>) -> (r: Result<i64, ParseError>)
        requires
            old(self).wf(),
        ensures
            old(self).advanced(final(self)),
            final(self).pos == old(self).pos,
            final(self).table.variables == old(self).table.variables,
            match symbol_at(old(self).reading(), name@, old(self).pos as int) {
                Ok((id, st)) => r == Ok::<i64, ParseError>(id as i64) && final(self).reading()
                    == st && 1 <= id <= final(self).table.symbols.len(),
                Err(e) => r == Err::<i64, ParseError>(e),
            },
    {
        match intern(&mut self.table.symbols, name) {
            Some(i) => Ok(i as i64 + 1),
            None => Err(ParseError::TooManyNames),
        }
    }

    /// The identifier of a variable name.
    fn variable_id(&mut self, name: Vec<u8>) -> (r: Result<i64, ParseError>)
        requires
            old(self).wf(),
        ensures
            old(self).advanced(final(self)),
            final(self).pos == old(self).pos,
            final(self).table.symbols == old(self).table.symbols,
            match variable_at(old(self).reading(), name@, old(self).pos as int) {
                Ok((id, st)) => r == Ok::<i64, ParseError>(id as i64) && final(self).reading()
                    == st && -final(self).table.variables.len() <= id <= -1,
                Err(e) => r == Err::<i64, ParseError>(e),
            },
    {
        match intern(&mut self.table.variables, name) {
            Some(i) => Ok(-(i as i64) - 1),
            None => Err(ParseError::TooManyNames),
        }
    }

    /// Passes over a closing bracket after any spaces.
    fn close(&mut self) -> (r: Result<(), ParseError>)
        requires
            old(self).wf(),
        ensures
            old(self).advanced(final(self)),
            final(self).table == old(self).table,
            match closed_at(old(self).input@, old(self).reading()) {
                Ok(st) => r is Ok && final(self).reading() == st && final(self).pos > old(
                    self,
                ).pos,
                Err(e) => r == Err::<(), ParseError>(e),
            },
    {
        proof {
            lemma_skip(self.input@, self.pos as int);
        }
        if self.eat(41) {
            Ok(())
        } else {
            Err(self.unexpected())
        }
    }

    /// Reads a term.
    fn parse_term(&mut self) -> (r: Result<Term, ParseError>)
        requires
            old(self).wf(),
        ensures
            old(self).advanced(final(self)),
            match term_at(old(self).input@, old(self).reading()) {
                Ok((t, st)) => r matches Ok(x) && x@ == t && final(self).reading() == st,
                Err(e) => r matches Err(x) && x == e,
            },
            match r {
                Ok(t) => final(self).pos > old(self).pos && term_within(
                    t@,
                    final(self).table.variables.len() as int,
                    final(self).table.symbols.len() as int,
                ),
                Err(_) => true,
            },
        decreases old(self).rest(), 0int,
    {
        let name = match self.name() {
            Ok(n) => n,
            Err(e) => {
                return Err(e);
            },
        };
        if self.eat(40) {
            let args = match self.parse_terms() {
                Ok(a) => a,
                Err(e) => {
                    return Err(e);
                },
            };
            match self.close() {
                Ok(()) => {},
                Err(e) => {
                    return Err(e);
                },
            }
            let ghost (v1, s1) = (
                self.table.variables.len() as int,
                self.table.symbols.len() as int,
            );
            match self.symbol_id(name) {
                Ok(id) => {
                    proof {
                        crate::cnf::ast::lemma_function_view(id, args);
                        let (v2, s2) = (
                            self.table.variables.len() as int,
                            self.table.symbols.len() as int,
                        );
                        assert forall|i: int| 0 <= i < views(args@).len() implies term_within(
                            #[trigger] views(args@)[i],
                            v2,
                            s2,
                        ) by {
                            lemma_term_within_grows(views(args@)[i], v1, s1, v2, s2);
                        }
                    }
                    Ok(Term::Function(id, args))
                },
                Err(e) => Err(e),
            }
        } else {
            match self.variable_id(name) {
                Ok(id) => Ok(Term::Variable(id)),
                Err(e) => Err(e),
            }
        }
    }

    /// Reads terms with commas between them, up to a closing bracket.
    fn parse_terms(&mut self) -> (r: Result<Vec<Term>, ParseError>)
        requires
            old(self).wf(),
        ensures
            old(self).advanced(final(self)),
            match terms_at(old(self).input@, old(self).reading()) {
                Ok((ts, st)) => r matches Ok(x) && views(x@) == ts && final(self).reading() == st,
                Err(e) => r matches Err(x) && x == e,
            },
            match r {
                Ok(ts) => terms_within(
                    views(ts@),
                    final(self).table.variables.len() as int,
                    final(self).table.symbols.len() as int,
                ),
                Err(_) => true,
            },
        decreases old(self).rest(), 1int,
    {
        let mut out: Vec<Term> = Vec::new();
        self.skip_spaces();
        if self.pos < self.input.len() && self.input[self.pos] == 41 {
            proof {
                assert(views(out@) =~= Seq::<TermV>::empty());
            }
            return Ok(out);
        }
        let ghost goal = more_terms_at(self.input@, self.reading(), Seq::empty());
        proof {
            assert(views(out@) =~= Seq::<TermV>::empty());
        }
        loop
            invariant
                old(self).advanced(self),
                more_terms_at(self.input@, self.reading(), views(out@)) == goal,
                terms_at(old(self).input@, old(self).reading()) == goal,
                terms_within(
                    views(out@),
                    self.table.variables.len() as int,
                    self.table.symbols.len() as int,
                ),
            decreases self.rest(),
        {
            let ghost (v1, s1) = (
                self.table.variables.len() as int,
                self.table.symbols.len() as int,
            );
            let ghost before = views(out@);
            let ghost st = self.reading();
            let t = match self.parse_term() {
                Ok(t) => t,
                Err(e) => {
                    return Err(e);
                },
            };
            let ghost st2 = self.reading();
            out.push(t);
            proof {
                let (v2, s2) = (
                    self.table.variables.len() as int,
                    self.table.symbols.len() as int,
                );
                assert(views(out@) =~= before.push(t@));
                assert forall|i: int| 0 <= i < views(out@).len() implies term_within(
                    #[trigger] views(out@)[i],
                    v2,
                    s2,
                ) by {
                    if i < before.len() {
                        assert(views(out@)[i] == before[i]);
                        lemma_term_within_grows(before[i], v1, s1, v2, s2);
                    }
                }
            }
            if !self.eat(44) {
                return Ok(out);
            }
            proof {
                assert(moved(self.input@, st, st2));
            }
        }
    }

    /// Reads a negation, a quantified formula, a formula in brackets or an atom.
    fn parse_unary(&mut self) -> (r: Result<Formula, ParseError>)
        requires
            old(self).wf(),
        ensures
            old(self).advanced(final(self)),
            match unary_at(old(self).input@, old(self).reading()) {
                Ok((f, st)) => r matches Ok(x) && x@ == f && final(self).reading() == st,
                Err(e) => r matches Err(x) && x == e,
            },
            match r {
                Ok(f) => final(self).pos > old(self).pos && within(
                    f@,
                    final(self).table.variables.len() as int,
                    final(self).table.symbols.len() as int,
                ),
                Err(_) => true,
            },
        decreases old(self).rest(), 0int,
    {
        proof {
            lemma_skip(self.input@, self.pos as int);
        }
        if self.eat(126) {
            return match self.parse_unary() {
                Ok(f) => Ok(Formula::Not(Box::new(f))),
                Err(e) => Err(e),
            };
        }
        if self.eat(40) {
            let f = match self.parse_formula(4) {
                Ok(f) => f,
                Err(e) => {
                    return Err(e);
                },
            };
            match self.close() {
                Ok(()) => {},
                Err(e) => {
                    return Err(e);
                },
            }
            return Ok(f);
        }
        let name = match self.name() {
            Ok(n) => n,
            Err(e) => {
                return Err(e);
            },
        };
        let universal = is_forall(&name);
        if universal || is_exists(&name) {
            let variable = match self.name() {
                Ok(n) => n,
                Err(e) => {
                    return Err(e);
                },
            };
            if !self.eat(46) {
                return Err(self.unexpected());
            }
            let x = match self.variable_id(variable) {
                Ok(x) => x,
                Err(e) => {
                    return Err(e);
                },
            };
            let ghost (v1, s1) = (
                self.table.variables.len() as int,
                self.table.symbols.len() as int,
            );
            let body = match self.parse_formula(4) {
                Ok(f) => f,
                Err(e) => {
                    return Err(e);
                },
            };
            return if universal {
                Ok(Formula::Forall(x, Box::new(body)))
            } else {
                Ok(Formula::Exists(x, Box::new(body)))
            };
        }
        let args = if self.eat(40) {
            let args = match self.parse_terms() {
                Ok(a) => a,
                Err(e) => {
                    return Err(e);
                },
            };
            match self.close() {
                Ok(()) => {},
                Err(e) => {
                    return Err(e);
                },
            }
            args
        } else {
            let none: Vec<Term> = Vec::new();
            proof {
                assert(views(none@) =~= Seq::<TermV>::empty());
            }
            none
        };
        let ghost (v1, s1) = (self.table.variables.len() as int, self.table.symbols.len() as int);
        match self.symbol_id(name) {
            Ok(id) => {
                proof {
                    let (v2, s2) = (
                        self.table.variables.len() as int,
                        self.table.symbols.len() as int,
                    );
                    assert forall|i: int| 0 <= i < views(args@).len() implies term_within(
                        #[trigger] views(args@)[i],
                        v2,
                        s2,
                    ) by {
                        lemma_term_within_grows(views(args@)[i], v1, s1, v2, s2);
                    }
                }
                Ok(Formula::Predicate(id, args))
            },
            Err(e) => Err(e),
        }
    }

    /// Reads a formula of a level: formulae of the level below with the
    /// connective of the level between them.
    fn parse_formula(&mut self, level: u8) -> (r: Result<Formula, ParseError>)
        requires
            old(self).wf(),
            level <= 4,
        ensures
            old(self).advanced(final(self)),
            match formula_at(old(self).input@, old(self).reading(), level as nat) {
                Ok((f, st)) => r matches Ok(x) && x@ == f && final(self).reading() == st,
                Err(e) => r matches Err(x) && x == e,
            },
            match r {
                Ok(f) => final(self).pos > old(self).pos && within(
                    f@,
                    final(self).table.variables.len() as int,
                    final(self).table.symbols.len() as int,
                ),
                Err(_) => true,
            },
        decreases old(self).rest(), level + 1,
    {
        if level == 0 {
            return self.parse_unary();
        }
        let mut lhs = match self.parse_formula(level - 1) {
            Ok(f) => f,
            Err(e) => {
                return Err(e);
            },
        };
        let ghost goal = joined_at(self.input@, self.reading(), level as nat, lhs@);
        loop
            invariant
                old(self).advanced(self),
                1 <= level <= 4,
                self.pos > old(self).pos,
                joined_at(self.input@, self.reading(), level as nat, lhs@) == goal,
                formula_at(old(self).input@, old(self).reading(), level as nat) == goal,
                within(
                    lhs@,
                    self.table.variables.len() as int,
                    self.table.symbols.len() as int,
                ),
            decreases self.rest(),
        {
            if !self.eat_operator(level) {
                return Ok(lhs);
            }
            let ghost (v1, s1) = (
                self.table.variables.len() as int,
                self.table.symbols.len() as int,
            );
            let rhs = match self.parse_formula(
                if level == 3 {
                    3
                } else {
                    level - 1
                },
            ) {
                Ok(f) => f,
                Err(e) => {
                    return Err(e);
                },
            };
            proof {
                lemma_within_grows(
                    lhs@,
                    v1,
                    s1,
                    self.table.variables.len() as int,
                    self.table.symbols.len() as int,
                );
            }
            lhs = join(level, lhs, rhs);
            if level == 3 {
                return Ok(lhs);
            }
        }
    }
}

/// Joins two formulae by the connective of a level.
fn join(level: u8, p: Formula, q: Formula) -> (r: Formula)
    requires
        1 <= level <= 4,
    ensures
        r@ == joined(level as nat, p@, q@),
{
    if level == 1 {
        Formula::And(Box::new(p), Box::new(q))
    } else if level == 2 {
        Formula::Or(Box::new(p), Box::new(q))
    } else if level == 3 {
        Formula::Implies(Box::new(p), Box::new(q))
    } else {
        Formula::Equivalent(Box::new(p), Box::new(q))
    }
}

/// Whether the name is `forall`.
fn is_forall(name: &Vec<u8>) -> (r: bool)
    ensures
        r == (name@ == forall_word()),
{
    let r = name.len() == 6 && name[0] == 102 && name[1] == 111 && name[2] == 114 && name[3] == 97
        && name[4] == 108 && name[5] == 108;
    proof {
        if r {
            assert(name@ =~= forall_word());
        } else if name.len() == 6 {
            assert(forall_word()[0] == 102 && forall_word()[1] == 111 && forall_word()[2] == 114
                && forall_word()[3] == 97 && forall_word()[4] == 108 && forall_word()[5] == 108);
        } else {
            assert(forall_word().len() == 6);
        }
    }
    r
}

/// Whether the name is `exists`.
fn is_exists(name: &Vec<u8>) -> (r: bool)
    ensures
        r == (name@ == exists_word()),
{
    let r = name.len() == 6 && name[0] == 101 && name[1] == 120 && name[2] == 105 && name[3] == 115
        && name[4] == 116 && name[5] == 115;
    proof {
        if r {
            assert(name@ =~= exists_word());
        } else if name.len() == 6 {
            assert(exists_word()[0] == 101 && exists_word()[1] == 120 && exists_word()[2] == 105
                && exists_word()[3] == 115 && exists_word()[4] == 116 && exists_word()[5] == 115);
        } else {
            assert(exists_word().len() == 6);
        }
    }
    r
}

/// Reads a formula from a text, which must hold nothing else. The result
/// holds the formula that the text states and its names: no truth value
/// occurs in the formula, and each of its variables and symbols has a name
/// in the table.
pub fn parse(s: &str) -> (r: Result<(Formula, SymbolTable), ParseError>)
    ensures
        match parsed(s.spec_bytes()) {
            Ok((f, symbols, variables)) => r matches Ok((g, table)) && g@ == f && names(
                table.symbols@,
            ) == symbols && names(table.variables@) == variables,
            Err(e) => r matches Err(x) && x == e,
        },
        match r {
            Ok((f, table)) => {
                &&& table.symbols.len() <= MAX_NAMES
                &&& table.variables.len() <= MAX_NAMES
                &&& within(f@, table.variables.len() as int, table.symbols.len() as int)
            },
            Err(_) => true,
        },
{
    let mut p = Parser { input: bytes_of(s), pos: 0, table: SymbolTable::new() };
    proof {
        assert(p.reading().symbols =~= Seq::<Seq<u8>>::empty());
        assert(p.reading().variables =~= Seq::<Seq<u8>>::empty());
    }
    let f = match p.parse_formula(4) {
        Ok(f) => f,
        Err(e) => {
            return Err(e);
        },
    };
    p.skip_spaces();
    if p.pos < p.input.len() {
        return Err(ParseError::UnexpectedCharacter(p.pos));
    }
    Ok((f, p.table))
}

} // verus!
