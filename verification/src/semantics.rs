//! The meaning of terms, literals and clauses in an interpretation.
use crate::clause::{apply_clause, ClauseV};
use crate::literal::LiteralV;
use crate::position::{replace_at, subterm_at, valid_position};
use crate::term::{SubstV, TermV};
use vstd::prelude::*;

verus! {

/// An interpretation of the symbols over the integers: the value of a symbol
/// (identifier and sort) at the values of its arguments. An atom holds where
/// its value is the value of the truth constant.
pub type Interpretation = spec_fn(int, bool, Seq<int>) -> int;

/// An assignment of values to the variables.
pub type Valuation = spec_fn(int) -> int;

/// The value of a term.
pub open spec fn eval(t: TermV, m: Interpretation, v: Valuation) -> int
    decreases t, 1int,
{
    match t {
        TermV::Var(x) => v(x),
        TermV::Fun(f, p, args) => m(f, p, arg_values(t, m, v)),
    }
}

/// The values of the arguments of a term.
pub open spec fn arg_values(t: TermV, m: Interpretation, v: Valuation) -> Seq<int>
    decreases t, 0int,
{
    Seq::new(
        t.args().len(),
        |i: int| if 0 <= i < t.args().len() { eval(t.args()[i], m, v) } else { 0 },
    )
}

/// Whether the literal holds.
pub open spec fn literal_holds(l: LiteralV, m: Interpretation, v: Valuation) -> bool {
    (eval(l.lhs, m, v) == eval(l.rhs, m, v)) == l.positive
}

/// Whether some literal of the clause holds.
pub open spec fn clause_holds(c: ClauseV, m: Interpretation, v: Valuation) -> bool {
    exists|i: int| 0 <= i < c.len() && literal_holds(#[trigger] c[i], m, v)
}

/// Whether the clause holds under every assignment: the interpretation is a
/// model of the clause.
pub open spec fn models(m: Interpretation, c: ClauseV) -> bool {
    forall|v: Valuation| #[trigger] clause_holds(c, m, v)
}

/// Whether the interpretation is a model of every clause.
pub open spec fn models_all(m: Interpretation, cs: Seq<ClauseV>) -> bool {
    forall|i: int| 0 <= i < cs.len() ==> models(m, #[trigger] cs[i])
}

/// Whether every interpretation is a model of the clause.
pub open spec fn valid(c: ClauseV) -> bool {
    forall|m: Interpretation| #[trigger] models(m, c)
}

/// Whether every model of all the clauses is a model of `c`.
pub open spec fn entails(cs: Seq<ClauseV>, c: ClauseV) -> bool {
    forall|m: Interpretation| #[trigger] models_all(m, cs) ==> models(m, c)
}

/// Whether no interpretation is a model of every clause.
pub open spec fn unsatisfiable(cs: Seq<ClauseV>) -> bool {
    forall|m: Interpretation| !#[trigger] models_all(m, cs)
}

/// The assignment that gives each variable the value of its image.
pub open spec fn pull(s: SubstV, m: Interpretation, v: Valuation) -> Valuation {
    |x: int| eval(TermV::Var(x).apply(s), m, v)
}

/// The unit clause that states `l = r`.
pub open spec fn unit_equation(l: TermV, r: TermV) -> ClauseV {
    seq![LiteralV { positive: true, lhs: l, rhs: r }]
}

/// The value of an instance is the value of the term under the pulled-back assignment.
pub proof fn lemma_eval_apply(t: TermV, s: SubstV, m: Interpretation, v: Valuation)
    ensures
        eval(t.apply(s), m, v) == eval(t, m, pull(s, m, v)),
    decreases t,
{
    match t {
        TermV::Var(x) => {
            assert(pull(s, m, v)(x) == eval(TermV::Var(x).apply(s), m, v));
        },
        TermV::Fun(f, p, args) => {
            let a = arg_values(t, m, pull(s, m, v));
            let b = arg_values(t.apply(s), m, v);
            assert forall|i: int| 0 <= i < args.len() implies a[i] == b[i] by {
                lemma_eval_apply(args[i], s, m, v);
            }
            assert(a =~= b);
        },
    }
}

/// An instance of a literal holds where the literal holds under the pulled-back assignment.
pub proof fn lemma_literal_apply(l: LiteralV, s: SubstV, m: Interpretation, v: Valuation)
    ensures
        literal_holds(l.apply(s), m, v) == literal_holds(l, m, pull(s, m, v)),
{
    lemma_eval_apply(l.lhs, s, m, v);
    lemma_eval_apply(l.rhs, s, m, v);
}

/// An instance of a clause holds where the clause holds under the pulled-back assignment.
pub proof fn lemma_clause_apply(c: ClauseV, s: SubstV, m: Interpretation, v: Valuation)
    ensures
        clause_holds(apply_clause(c, s), m, v) == clause_holds(c, m, pull(s, m, v)),
{
    let d = apply_clause(c, s);
    if clause_holds(d, m, v) {
        let i = choose|i: int| 0 <= i < d.len() && literal_holds(#[trigger] d[i], m, v);
        lemma_literal_apply(c[i], s, m, v);
        assert(literal_holds(c[i], m, pull(s, m, v)));
    }
    if clause_holds(c, m, pull(s, m, v)) {
        let i = choose|i: int| 0 <= i < c.len() && literal_holds(#[trigger] c[i], m, pull(s, m, v));
        lemma_literal_apply(c[i], s, m, v);
        assert(literal_holds(d[i], m, v));
    }
}

/// A model of a clause is a model of each of its instances.
pub proof fn lemma_instance(m: Interpretation, c: ClauseV, s: SubstV)
    requires
        models(m, c),
    ensures
        models(m, apply_clause(c, s)),
{
    assert forall|v: Valuation| #[trigger] clause_holds(apply_clause(c, s), m, v) by {
        lemma_clause_apply(c, s, m, v);
        assert(clause_holds(c, m, pull(s, m, v)));
    }
}

/// Replacing a subterm by a term of the same value does not change the value.
pub proof fn lemma_replace_eval(t: TermV, p: Seq<int>, r: TermV, m: Interpretation, v: Valuation)
    requires
        valid_position(t, p),
        eval(subterm_at(t, p), m, v) == eval(r, m, v),
    ensures
        eval(replace_at(t, p, r), m, v) == eval(t, m, v),
    decreases p.len(),
{
    if p.len() > 0 {
        let args = t.args();
        let i = p[0];
        lemma_replace_eval(args[i], p.drop_first(), r, m, v);
        let n = replace_at(t, p, r).args();
        let a = arg_values(t, m, v);
        let b = arg_values(replace_at(t, p, r), m, v);
        assert(n.len() == args.len());
        assert forall|j: int| 0 <= j < args.len() implies a[j] == b[j] by {
            if j != i {
                assert(n[j] == args[j]);
            } else {
                assert(n[j] == replace_at(args[i], p.drop_first(), r));
            }
        }
        assert(a =~= b);
        assert(t == TermV::Fun(t.id(), t.predicate(), args));
    }
}

/// The empty clause holds nowhere: a set of clauses that entails it has no model.
pub proof fn lemma_empty_clause(cs: Seq<ClauseV>)
    requires
        entails(cs, Seq::empty()),
    ensures
        unsatisfiable(cs),
{
    assert forall|m: Interpretation| !#[trigger] models_all(m, cs) by {
        if models_all(m, cs) {
            assert(models(m, Seq::empty()));
            let v = |x: int| 0int;
            assert(clause_holds(Seq::empty(), m, v));
        }
    }
}

} // verus!
