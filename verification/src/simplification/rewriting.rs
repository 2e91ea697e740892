//! Rewriting by oriented unit equations.
use crate::clause::{Clause, ClauseV};
use crate::literal::{Literal, LiteralV};
use crate::matching::{lemma_matcher_unique, matcher};
use crate::ordering::term_ordering::TermOrdering;
use crate::pd_tree::{
    entry_found, flatten, found, in_tree, keys_view, lemma_flat_match_matcher,
    lemma_matcher_flat_match, listed, push_keys, Key, KeyV, PDTree,
};
use crate::position::{replace_at, subterm_at, valid_position};
use crate::semantics::{
    clause_holds, eval, lemma_eval_apply, lemma_replace_eval, literal_holds, models, models_all,
    pull, unit_equation, Interpretation, Valuation,
};
use crate::substitution::Substitution;
use crate::term::{SubstV, Term, TermV};
use crate::unification::pairs_view;
use vstd::prelude::*;

verus! {

/// The unit equations that are used as rewrite rules, each as a left-hand
/// and a right-hand side, with a discrimination tree over the left-hand
/// sides in which the rules that match a term are found.
#[derive(Debug)]
pub struct TermIndex {
    pub rules: Vec<(Term, Term)>,
    pub tree: PDTree,
}

impl View for TermIndex {
    type V = Seq<(TermV, TermV)>;

    open spec fn view(&self) -> Seq<(TermV, TermV)> {
        pairs_view(self.rules@)
    }
}

/// The unit clauses that state the rules.
pub open spec fn rule_clauses(rules: Seq<(TermV, TermV)>) -> Seq<ClauseV> {
    Seq::new(rules.len(), |i: int| unit_equation(rules[i].0, rules[i].1))
}

/// Whether `n` is what some rule makes of `t` itself: the left-hand side of
/// the rule matches `t`, `n` is the instance of its right-hand side under
/// the matcher, and `t` is greater than `n`.
pub open spec fn root_rewrite(
    ord: TermOrdering,
    rules: Seq<(TermV, TermV)>,
    t: TermV,
    n: TermV,
) -> bool {
    exists|i: int, s: SubstV|
        #![trigger matcher(s, rules[i].0, t)]
        0 <= i < rules.len() && matcher(s, rules[i].0, t) && n == rules[i].1.apply(s)
            && ord.greater(t, n)
}

/// Whether some rule rewrites `t` itself.
pub open spec fn redex(ord: TermOrdering, rules: Seq<(TermV, TermV)>, t: TermV) -> bool {
    exists|n: TermV| root_rewrite(ord, rules, t, n)
}

/// Whether some rule rewrites a subterm of `t`.
pub open spec fn reducible(ord: TermOrdering, rules: Seq<(TermV, TermV)>, t: TermV) -> bool {
    exists|u: TermV| t.has_subterm(u) && redex(ord, rules, u)
}

/// Whether `b` comes from `a` by rewriting one subterm with one rule.
pub open spec fn rewrite_step(
    ord: TermOrdering,
    rules: Seq<(TermV, TermV)>,
    a: TermV,
    b: TermV,
) -> bool {
    exists|p: Seq<int>, n: TermV|
        #![trigger replace_at(a, p, n)]
        valid_position(a, p) && root_rewrite(ord, rules, subterm_at(a, p), n) && b == replace_at(
            a,
            p,
            n,
        )
}

/// Whether `b` comes from `a` by `n` rewrite steps.
pub open spec fn reduces_to(
    ord: TermOrdering,
    rules: Seq<(TermV, TermV)>,
    a: TermV,
    b: TermV,
    n: nat,
) -> bool
    decreases n,
{
    if n == 0 {
        a == b
    } else {
        exists|c: TermV| rewrite_step(ord, rules, a, c) && reduces_to(ord, rules, c, b, (n - 1) as nat)
    }
}

/// Whether `b` comes from `a` by rewrite steps.
pub open spec fn reduces(ord: TermOrdering, rules: Seq<(TermV, TermV)>, a: TermV, b: TermV) -> bool {
    exists|n: nat| reduces_to(ord, rules, a, b, n)
}

/// Whether `d` is `c` with the sides of its literals rewritten.
pub open spec fn rewritten(
    ord: TermOrdering,
    rules: Seq<(TermV, TermV)>,
    c: ClauseV,
    d: ClauseV,
) -> bool {
    &&& c.len() == d.len()
    &&& forall|i: int|
        0 <= i < c.len() ==> (#[trigger] d[i]).positive == c[i].positive && reduces(
            ord,
            rules,
            c[i].lhs,
            d[i].lhs,
        ) && reduces(ord, rules, c[i].rhs, d[i].rhs)
}

/// Whether some side of a literal of `c` took `n` rewrite steps to become
/// the side of `d`.
pub open spec fn took_steps(
    ord: TermOrdering,
    rules: Seq<(TermV, TermV)>,
    c: ClauseV,
    d: ClauseV,
    n: nat,
) -> bool {
    exists|i: int|
        0 <= i < c.len() && i < d.len() && (reduces_to(
            ord,
            rules,
            (#[trigger] c[i]).lhs,
            d[i].lhs,
            n,
        ) || reduces_to(ord, rules, c[i].rhs, d[i].rhs, n))
}

/// Whether no rule rewrites a subterm of a side of a literal of the clause.
pub open spec fn normal(ord: TermOrdering, rules: Seq<(TermV, TermV)>, c: ClauseV) -> bool {
    forall|i: int|
        0 <= i < c.len() ==> !reducible(ord, rules, (#[trigger] c[i]).lhs) && !reducible(
            ord,
            rules,
            c[i].rhs,
        )
}

/// A rewrite step at the root keeps the value in every model of the rules.
pub proof fn lemma_root_rewrite_sound(
    ord: TermOrdering,
    rules: Seq<(TermV, TermV)>,
    t: TermV,
    n: TermV,
    m: Interpretation,
    v: Valuation,
)
    requires
        root_rewrite(ord, rules, t, n),
        models_all(m, rule_clauses(rules)),
    ensures
        eval(t, m, v) == eval(n, m, v),
{
    let (i, s) = choose|i: int, s: SubstV|
        #![trigger matcher(s, rules[i].0, t)]
        0 <= i < rules.len() && matcher(s, rules[i].0, t) && n == rules[i].1.apply(s)
            && ord.greater(t, n);
    let u = unit_equation(rules[i].0, rules[i].1);
    assert(rule_clauses(rules)[i] == u);
    assert(models(m, u));
    let w = pull(s, m, v);
    assert(clause_holds(u, m, w));
    let k = choose|k: int| 0 <= k < u.len() && literal_holds(#[trigger] u[k], m, w);
    assert(u[k] == LiteralV { positive: true, lhs: rules[i].0, rhs: rules[i].1 });
    lemma_eval_apply(rules[i].0, s, m, v);
    lemma_eval_apply(rules[i].1, s, m, v);
}

/// A rewrite step keeps the value in every model of the rules.
pub proof fn lemma_rewrite_step_sound(
    ord: TermOrdering,
    rules: Seq<(TermV, TermV)>,
    a: TermV,
    b: TermV,
    m: Interpretation,
    v: Valuation,
)
    requires
        rewrite_step(ord, rules, a, b),
        models_all(m, rule_clauses(rules)),
    ensures
        eval(a, m, v) == eval(b, m, v),
{
    let (p, n) = choose|p: Seq<int>, n: TermV|
        #![trigger replace_at(a, p, n)]
        valid_position(a, p) && root_rewrite(ord, rules, subterm_at(a, p), n) && b == replace_at(
            a,
            p,
            n,
        );
    lemma_root_rewrite_sound(ord, rules, subterm_at(a, p), n, m, v);
    lemma_replace_eval(a, p, n, m, v);
}

/// Rewriting keeps the value in every model of the rules.
pub proof fn lemma_reduces_sound(
    ord: TermOrdering,
    rules: Seq<(TermV, TermV)>,
    a: TermV,
    b: TermV,
    n: nat,
    m: Interpretation,
    v: Valuation,
)
    requires
        reduces_to(ord, rules, a, b, n),
        models_all(m, rule_clauses(rules)),
    ensures
        eval(a, m, v) == eval(b, m, v),
    decreases n,
{
    if n > 0 {
        let c = choose|c: TermV|
            rewrite_step(ord, rules, a, c) && reduces_to(ord, rules, c, b, (n - 1) as nat);
        lemma_rewrite_step_sound(ord, rules, a, c, m, v);
        lemma_reduces_sound(ord, rules, c, b, (n - 1) as nat, m, v);
    }
}

/// A model of the rules and of a clause is a model of the rewritten clause.
pub proof fn lemma_rewritten_sound(
    ord: TermOrdering,
    rules: Seq<(TermV, TermV)>,
    c: ClauseV,
    d: ClauseV,
    m: Interpretation,
)
    requires
        rewritten(ord, rules, c, d),
        models_all(m, rule_clauses(rules)),
        models(m, c),
    ensures
        models(m, d),
{
    assert forall|v: Valuation| #[trigger] clause_holds(d, m, v) by {
        assert(clause_holds(c, m, v));
        let i = choose|i: int| 0 <= i < c.len() && literal_holds(#[trigger] c[i], m, v);
        assert(d[i].positive == c[i].positive);
        let n1 = choose|n: nat| reduces_to(ord, rules, c[i].lhs, d[i].lhs, n);
        let n2 = choose|n: nat| reduces_to(ord, rules, c[i].rhs, d[i].rhs, n);
        lemma_reduces_sound(ord, rules, c[i].lhs, d[i].lhs, n1, m, v);
        lemma_reduces_sound(ord, rules, c[i].rhs, d[i].rhs, n2, m, v);
        assert(literal_holds(d[i], m, v));
    }
}

/// One more step at the end of a chain of rewrite steps.
pub proof fn lemma_reduces_step(
    ord: TermOrdering,
    rules: Seq<(TermV, TermV)>,
    a: TermV,
    b: TermV,
    c: TermV,
    n: nat,
)
    requires
        reduces_to(ord, rules, a, b, n),
        rewrite_step(ord, rules, b, c),
    ensures
        reduces_to(ord, rules, a, c, n + 1),
    decreases n,
{
    if n == 0 {
        assert(reduces_to(ord, rules, c, c, 0));
    } else {
        let x = choose|x: TermV|
            rewrite_step(ord, rules, a, x) && reduces_to(ord, rules, x, b, (n - 1) as nat);
        lemma_reduces_step(ord, rules, x, b, c, (n - 1) as nat);
    }
}

impl TermIndex {
    /// Whether the tree holds each rule at the end of the symbols of its
    /// left-hand side, and nothing else.
    pub open spec fn wf(&self) -> bool {
        &&& forall|i: usize|
            i < self.rules@.len() ==> #[trigger] in_tree(
                self.tree,
                flatten(self.rules@[i as int].0@),
                i,
            )
        &&& forall|ks: Seq<KeyV>, i: usize| #[trigger]
            in_tree(self.tree, ks, i) ==> i < self.rules@.len() && ks == flatten(
                self.rules@[i as int].0@,
            )
    }

    /// An index without rules.
    pub fn new() -> (index: TermIndex)
        ensures
            index.wf(),
            index@ == Seq::<(TermV, TermV)>::empty(),
    {
        let index = TermIndex { rules: Vec::new(), tree: PDTree::new() };
        proof {
            assert(index@ =~= Seq::<(TermV, TermV)>::empty());
        }
        index
    }

    /// The number of rules.
    pub fn size(&self) -> (n: usize)
        ensures
            n == self@.len(),
    {
        self.rules.len()
    }

    /// Adds the rule that rewrites instances of `l` to instances of `r`.
    pub fn insert(&mut self, l: Term, r: Term)
        requires
            old(self).wf(),
        ensures
            final(self).wf(),
            final(self)@ == old(self)@.push((l@, r@)),
    {
        let mut keys: Vec<Key> = Vec::new();
        push_keys(&l, &mut keys);
        let rule = self.rules.len();
        let mut tree = PDTree::new();
        core::mem::swap(&mut self.tree, &mut tree);
        let ghost old_tree = tree;
        tree = tree.insert(&keys, 0, rule);
        self.tree = tree;
        self.rules.push((l, r));
        proof {
            assert(self@ =~= old(self)@.push((l@, r@)));
            assert(keys_view(keys@).skip(0) =~= flatten(l@));
            assert(keys_view(keys@) =~= flatten(l@));
            assert forall|i: usize| i < self.rules@.len() implies #[trigger] in_tree(
                self.tree,
                flatten(self.rules@[i as int].0@),
                i,
            ) by {
                if i < rule {
                    assert(self.rules@[i as int] == old(self).rules@[i as int]);
                    assert(in_tree(old_tree, flatten(old(self).rules@[i as int].0@), i));
                }
            }
            assert forall|ks: Seq<KeyV>, i: usize| #[trigger]
                in_tree(self.tree, ks, i) implies i < self.rules@.len() && ks == flatten(
                self.rules@[i as int].0@,
            ) by {
                if in_tree(old_tree, ks, i) {
                    assert(self.rules@[i as int] == old(self).rules@[i as int]);
                }
            }
        }
    }

    /// The rules whose left-hand side matches `t`, each as its number and
    /// the matcher.
    pub fn iter_generalizations(&self, t: &Term) -> (out: Vec<(usize, Substitution)>)
        requires
            self.wf(),
        ensures
            forall|k: int|
                0 <= k < out@.len() ==> (#[trigger] out@[k]).0 < self@.len() && matcher(
                    out@[k].1@,
                    self@[out@[k].0 as int].0,
                    t@,
                ),
            forall|i: int, s: SubstV|
                0 <= i < self@.len() && #[trigger] self@[i].0.apply(s) == t@ ==> exists|k: int|
                    0 <= k < out@.len() && (#[trigger] out@[k]).0 == i,
    {
        let mut out: Vec<(usize, Substitution)> = Vec::new();
        let mut stack: Vec<&Term> = Vec::new();
        stack.push(t);
        let sigma = Substitution::new();
        self.tree.collect(&stack, &sigma, &mut out);
        proof {
            let st = crate::pd_tree::stack_view(stack@);
            assert(st =~= seq![t@]);
            assert forall|k: int| 0 <= k < out@.len() implies (#[trigger] out@[k]).0 < self@.len()
                && matcher(out@[k].1@, self@[out@[k].0 as int].0, t@) by {
                assert(entry_found(out@, k, self.tree, st, sigma@));
                let ks = choose|ks: Seq<KeyV>| found(out@, k, self.tree, ks, st, sigma@);
                let i = out@[k].0;
                assert(in_tree(self.tree, ks, i));
                assert(self@[i as int].0 == self.rules@[i as int].0@);
                lemma_flat_match_matcher(self@[i as int].0, t@, out@[k].1@);
            }
            assert forall|i: int, s: SubstV|
                0 <= i < self@.len() && #[trigger] self@[i].0.apply(s) == t@ implies exists|k: int|
                0 <= k < out@.len() && (#[trigger] out@[k]).0 == i by {
                let l = self@[i].0;
                assert(l == self.rules@[i].0@);
                lemma_matcher_flat_match(l, t@, s);
                assert(self@.len() == self.rules.len());
                let iu = i as usize;
                assert(iu as int == i);
                assert(in_tree(self.tree, flatten(self.rules@[iu as int].0@), iu));
                assert(in_tree(self.tree, flatten(l), iu));
                assert(listed(out@, 0, iu, flatten(l), st, sigma@));
                assert(crate::pd_tree::flat_match(flatten(l), st, sigma@) is Some);
                let k = choose|k: int|
                    0 <= k < out@.len() && (#[trigger] out@[k]).0 == iu && out@[k].1@
                        == crate::pd_tree::flat_match(flatten(l), st, sigma@)->0;
                assert(out@[k].0 == i);
            }
        }
        out
    }
}

/// What some rule makes of `t` itself, if a rule rewrites it.
fn normal_form_step_helper(term_ordering: &TermOrdering, term_index: &TermIndex, t: &Term) -> (r:
    Option<Term>)
    requires
        term_index.wf(),
    ensures
        match r {
            Some(n) => root_rewrite(*term_ordering, term_index@, t@, n@),
            None => !redex(*term_ordering, term_index@, t@),
        },
{
    let gens = term_index.iter_generalizations(t);
    let mut k: usize = 0;
    while k < gens.len()
        invariant
            0 <= k <= gens.len(),
            forall|k: int|
                0 <= k < gens@.len() ==> (#[trigger] gens@[k]).0 < term_index@.len() && matcher(
                    gens@[k].1@,
                    term_index@[gens@[k].0 as int].0,
                    t@,
                ),
            forall|j: int|
                0 <= j < k ==> !term_ordering.greater(
                    t@,
                    term_index@[(#[trigger] gens@[j]).0 as int].1.apply(gens@[j].1@),
                ),
        decreases gens.len() - k,
    {
        let i = gens[k].0;
        let new_r = gens[k].1.apply(&term_index.rules[i].1);
        if term_ordering.gt(t, &new_r) {
            proof {
                assert(matcher(gens@[k as int].1@, term_index@[i as int].0, t@));
            }
            return Some(new_r);
        }
        k += 1;
    }
    proof {
        let rules = term_index@;
        assert forall|n: TermV| !root_rewrite(*term_ordering, rules, t@, n) by {
            if root_rewrite(*term_ordering, rules, t@, n) {
                let (i, s) = choose|i: int, s: SubstV|
                    #![trigger matcher(s, rules[i].0, t@)]
                    0 <= i < rules.len() && matcher(s, rules[i].0, t@) && n == rules[i].1.apply(s)
                        && term_ordering.greater(t@, n);
                assert(rules[i].0.apply(s) == t@);
                let j = choose|j: int| 0 <= j < gens@.len() && (#[trigger] gens@[j]).0 == i;
                lemma_matcher_unique(s, gens@[j].1@, rules[i].0, t@);
            }
        }
    }
    None
}

/// The term with one subterm rewritten by one rule, if any subterm can be.
fn rewrite_once(term_ordering: &TermOrdering, term_index: &TermIndex, t: &Term) -> (r: Option<Term>)
    requires
        term_index.wf(),
    ensures
        match r {
            Some(n) => rewrite_step(*term_ordering, term_index@, t@, n@),
            None => !reducible(*term_ordering, term_index@, t@),
        },
    decreases t,
{
    let ghost ord = *term_ordering;
    let ghost rules = term_index@;
    if let Some(n) = normal_form_step_helper(term_ordering, term_index, t) {
        proof {
            let p = Seq::<int>::empty();
            assert(valid_position(t@, p) && subterm_at(t@, p) == t@ && n@ == replace_at(
                t@,
                p,
                n@,
            ));
        }
        return Some(n);
    }
    if t.id < 0 {
        return None;
    }
    let len = t.args.len();
    let mut i: usize = 0;
    while i < len
        invariant
            0 <= i <= len,
            len == t.args.len(),
            t.id >= 0,
            ord == *term_ordering,
            rules == term_index@,
            term_index.wf(),
            !redex(ord, rules, t@),
            forall|j: int| 0 <= j < i ==> !reducible(ord, rules, (#[trigger] t.args[j])@),
        decreases len - i,
    {
        if let Some(a) = rewrite_once(term_ordering, term_index, &t.args[i]) {
            let mut args: Vec<Term> = Vec::new();
            let mut j: usize = 0;
            while j < len
                invariant
                    0 <= j <= len,
                    len == t.args.len(),
                    i < len,
                    args.len() == j,
                    forall|k: int|
                        0 <= k < j ==> (#[trigger] args[k])@ == if k == i {
                            a@
                        } else {
                            t.args[k]@
                        },
                decreases len - j,
            {
                if j == i {
                    args.push(a.clone());
                } else {
                    args.push(t.args[j].clone());
                }
                j += 1;
            }
            let n = Term { id: t.id, predicate: t.predicate, args };
            proof {
                let ai = t.args[i as int]@;
                assert(t@.args()[i as int] == ai);
                let (p, x) = choose|p: Seq<int>, x: TermV|
                    #![trigger replace_at(ai, p, x)]
                    valid_position(ai, p) && root_rewrite(ord, rules, subterm_at(ai, p), x) && a@
                        == replace_at(ai, p, x);
                let q = seq![i as int] + p;
                assert(q.drop_first() =~= p);
                assert(valid_position(t@, q));
                assert(subterm_at(t@, q) == subterm_at(ai, p));
                assert(n@.args() =~= replace_at(t@, q, x).args());
                assert(n@ == replace_at(t@, q, x));
            }
            return Some(n);
        }
        i += 1;
    }
    proof {
        assert forall|u: TermV| t@.has_subterm(u) implies !redex(ord, rules, u) by {
            if u != t@ {
                let args = t@.args();
                let j = choose|j: int| 0 <= j < args.len() && (#[trigger] args[j]).has_subterm(u);
                assert(args[j] == t.args[j]@);
                assert(!reducible(ord, rules, t.args[j]@));
            }
        }
    }
    None
}

/// Rewrites one subterm of `t` by one rule, if any subterm can be rewritten.
/// Yields whether a step was made; if none was, no rule rewrites any subterm.
pub fn normal_form_step(term_ordering: &TermOrdering, term_index: &TermIndex, t: &mut Term) -> (r:
    bool)
    requires
        term_index.wf(),
    ensures
        r ==> rewrite_step(*term_ordering, term_index@, old(t)@, final(t)@),
        !r ==> final(t)@ == old(t)@ && !reducible(*term_ordering, term_index@, old(t)@),
{
    match rewrite_once(term_ordering, term_index, t) {
        Some(n) => {
            *t = n;
            true
        },
        None => false,
    }
}

/// Rewrites `t` until no rule rewrites a subterm, or `max_steps` steps were
/// made. Yields whether the result is in normal form.
pub fn normal_form(
    term_ordering: &TermOrdering,
    term_index: &TermIndex,
    t: &mut Term,
    max_steps: usize,
) -> (r: bool)
    requires
        term_index.wf(),
    ensures
        exists|n: nat|
            n <= max_steps && reduces_to(*term_ordering, term_index@, old(t)@, final(t)@, n),
        r ==> !reducible(*term_ordering, term_index@, final(t)@),
        !r ==> reduces_to(*term_ordering, term_index@, old(t)@, final(t)@, max_steps as nat),
{
    let mut steps: usize = 0;
    proof {
        assert(reduces_to(*term_ordering, term_index@, old(t)@, t@, 0));
    }
    while steps < max_steps
        invariant
            0 <= steps <= max_steps,
            term_index.wf(),
            reduces_to(*term_ordering, term_index@, old(t)@, t@, steps as nat),
        decreases max_steps - steps,
    {
        let ghost before = t@;
        if !normal_form_step(term_ordering, term_index, t) {
            return true;
        }
        proof {
            lemma_reduces_step(*term_ordering, term_index@, old(t)@, before, t@, steps as nat);
        }
        steps += 1;
    }
    false
}

/// Rewrites both sides of every literal of the clause to normal form, with
/// at most `max_steps` steps for each side. Yields whether every side is in
/// normal form: then no rule rewrites a subterm of a side. Else a side
/// took all the steps.
pub fn rewrite_literals(
    term_ordering: &TermOrdering,
    term_index: &TermIndex,
    cl: &mut Clause,
    max_steps: usize,
) -> (r: bool)
    requires
        term_index.wf(),
    ensures
        rewritten(*term_ordering, term_index@, old(cl)@, final(cl)@),
        r ==> normal(*term_ordering, term_index@, final(cl)@),
        !r ==> took_steps(
            *term_ordering,
            term_index@,
            old(cl)@,
            final(cl)@,
            max_steps as nat,
        ),
        final(cl).id == old(cl).id,
{
    let ghost ord = *term_ordering;
    let ghost rules = term_index@;
    let n = cl.literals.len();
    let mut done: Vec<Literal> = Vec::new();
    let mut all = true;
    let mut i: usize = 0;
    while i < n
        invariant
            0 <= i <= n,
            n == cl.literals.len(),
            cl@ == old(cl)@,
            cl.id == old(cl).id,
            ord == *term_ordering,
            rules == term_index@,
            term_index.wf(),
            done.len() == i,
            forall|k: int|
                0 <= k < i ==> (#[trigger] done[k])@.positive == cl@[k].positive && reduces(
                    ord,
                    rules,
                    cl@[k].lhs,
                    done[k]@.lhs,
                ) && reduces(ord, rules, cl@[k].rhs, done[k]@.rhs),
            all ==> forall|k: int|
                0 <= k < i ==> !reducible(ord, rules, (#[trigger] done[k])@.lhs) && !reducible(
                    ord,
                    rules,
                    done[k]@.rhs,
                ),
            !all ==> exists|k: int|
                0 <= k < i && (reduces_to(
                    ord,
                    rules,
                    (#[trigger] cl@[k]).lhs,
                    done[k]@.lhs,
                    max_steps as nat,
                ) || reduces_to(ord, rules, cl@[k].rhs, done[k]@.rhs, max_steps as nat)),
        decreases n - i,
    {
        let ghost earlier = done@;
        let ghost was = all;
        let l = &cl.literals[i];
        let mut lhs = l.get_lhs().clone();
        let mut rhs = l.get_rhs().clone();
        let a = normal_form(term_ordering, term_index, &mut lhs, max_steps);
        let b = normal_form(term_ordering, term_index, &mut rhs, max_steps);
        all = all && a && b;
        done.push(Literal::new(l.is_negative(), lhs, rhs));
        proof {
            if !all {
                if !was {
                    let k = choose|k: int|
                        0 <= k < i && (reduces_to(
                            ord,
                            rules,
                            (#[trigger] cl@[k]).lhs,
                            earlier[k]@.lhs,
                            max_steps as nat,
                        ) || reduces_to(ord, rules, cl@[k].rhs, earlier[k]@.rhs, max_steps as nat));
                    assert(done@[k] == earlier[k]);
                    assert(0 <= k < i + 1 && (reduces_to(
                        ord,
                        rules,
                        cl@[k].lhs,
                        done[k]@.lhs,
                        max_steps as nat,
                    ) || reduces_to(ord, rules, cl@[k].rhs, done[k]@.rhs, max_steps as nat)));
                } else {
                    let k = i as int;
                    assert(0 <= k < i + 1 && (reduces_to(
                        ord,
                        rules,
                        cl@[k].lhs,
                        done[k]@.lhs,
                        max_steps as nat,
                    ) || reduces_to(ord, rules, cl@[k].rhs, done[k]@.rhs, max_steps as nat)));
                }
            }
        }
        i += 1;
    }
    let ghost before = cl@;
    cl.literals = done;
    proof {
        if !all {
            let k = choose|k: int|
                0 <= k < n && (reduces_to(
                    ord,
                    rules,
                    (#[trigger] before[k]).lhs,
                    done[k]@.lhs,
                    max_steps as nat,
                ) || reduces_to(ord, rules, before[k].rhs, done[k]@.rhs, max_steps as nat));
            assert(cl@[k] == done[k]@);
            assert(0 <= k < before.len() && k < cl@.len() && (reduces_to(
                ord,
                rules,
                before[k].lhs,
                cl@[k].lhs,
                max_steps as nat,
            ) || reduces_to(ord, rules, before[k].rhs, cl@[k].rhs, max_steps as nat)));
        }
    }
    all
}

} // verus!
