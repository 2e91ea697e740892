//! Subsumption by multiset matching with backtracking.
use crate::clause::{Clause, ClauseV};
use crate::matching::{agrees, extends, match_into};
use crate::semantics::{
    clause_holds, lemma_literal_apply, literal_holds, models, pull, Interpretation, Valuation,
};
use crate::substitution::Substitution;
use crate::term::{lemma_apply_agree, SubstV, TermV};
use vstd::prelude::*;

verus! {

/// Whether `f` sends the literals of `c` from place `from` on to different
/// literals of `d`, each being the instance under `th` of the literal it
/// comes from.
pub open spec fn embedding(c: ClauseV, d: ClauseV, th: SubstV, f: Seq<int>, from: int) -> bool {
    &&& f.len() == c.len()
    &&& forall|k: int|
        from <= k < c.len() ==> 0 <= #[trigger] f[k] < d.len() && c[k].apply(th).same(d[f[k]])
    &&& forall|k: int, l: int| from <= k < l < c.len() ==> #[trigger] f[k] != #[trigger] f[l]
}

/// Whether `c` subsumes `d`: an instance of `c` is a sub-multiset of `d`.
pub open spec fn subsumes_spec(c: ClauseV, d: ClauseV) -> bool {
    exists|th: SubstV, f: Seq<int>| embedding(c, d, th, f, 0)
}

/// Whether `th` and `f` complete a search that has matched the literals
/// before `from`, found the bindings `s` and used the marked literals of `d`.
pub open spec fn completes(
    c: ClauseV,
    d: ClauseV,
    th: SubstV,
    f: Seq<int>,
    from: int,
    s: SubstV,
    used: Seq<bool>,
) -> bool {
    &&& agrees(th, s)
    &&& embedding(c, d, th, f, from)
    &&& forall|k: int| from <= k < c.len() ==> !used[#[trigger] f[k]]
}

/// A substitution that agrees with bindings gives a term whose variables are
/// all bound the instance that the bindings give it.
proof fn lemma_agrees_apply(th: SubstV, s: SubstV, p: TermV)
    requires
        agrees(th, s),
        forall|x: int| p.occurs(x) ==> s.dom().contains(x),
    ensures
        p.apply(th) == p.apply(s),
{
    assert forall|x: int| p.occurs(x) implies TermV::Var(x).apply(th) == TermV::Var(x).apply(s) by {
        assert(s.dom().contains(x));
    }
    lemma_apply_agree(p, th, s);
}

/// A substitution that agrees with bindings agrees with fewer bindings.
proof fn lemma_agrees_extends(th: SubstV, s2: SubstV, s1: SubstV)
    requires
        agrees(th, s2),
        extends(s2, s1),
    ensures
        agrees(th, s1),
{
    assert forall|x: int| s1.dom().contains(x) implies #[trigger] TermV::Var(x).apply(th) == s1[x] by {
        assert(s2.dom().contains(x) && s2[x] == s1[x]);
    }
}

/// Tries to match the `i`-th literal of `c` against the `j`-th literal of
/// `d`, left side to left side where `straight` and crosswise otherwise, and
/// then the literals after the `i`-th against other literals of `d`.
fn subsumes_by(
    c: &Clause,
    d: &Clause,
    i: usize,
    j: usize,
    straight: bool,
    sigma: &Substitution,
    used: &Vec<bool>,
) -> (r: bool)
    requires
        i < c@.len(),
        j < d@.len(),
        used@.len() == d@.len(),
        !used@[j as int],
        c@[i as int].positive == d@[j as int].positive,
    ensures
        r ==> exists|th: SubstV, f: Seq<int>| completes(c@, d@, th, f, i as int, sigma@, used@),
        !r ==> forall|th: SubstV, f: Seq<int>|
            #![trigger completes(c@, d@, th, f, i as int, sigma@, used@)]
            completes(c@, d@, th, f, i as int, sigma@, used@) && f[i as int] == j ==> !({
                let l = c@[i as int].apply(th);
                let k = d@[j as int];
                if straight {
                    l.lhs == k.lhs && l.rhs == k.rhs
                } else {
                    l.lhs == k.rhs && l.rhs == k.lhs
                }
            }),
    decreases c@.len() - i, 0int,
{
    let ci = c.at(i);
    let dj = d.at(j);
    let (a, b) = if straight {
        (dj.get_lhs(), dj.get_rhs())
    } else {
        (dj.get_rhs(), dj.get_lhs())
    };
    let mut s1 = sigma.clone();
    if !match_into(ci.get_lhs(), a, &mut s1) {
        proof {
            assert forall|th: SubstV, f: Seq<int>|
                #![trigger completes(c@, d@, th, f, i as int, sigma@, used@)]
                completes(c@, d@, th, f, i as int, sigma@, used@) && f[i as int] == j implies c@[i as int].apply(
                th,
            ).lhs != a@ by {
                assert(ci@.lhs.apply(th) != a@);
            }
        }
        return false;
    }
    let ghost sa = s1@;
    if !match_into(ci.get_rhs(), b, &mut s1) {
        proof {
            assert forall|th: SubstV, f: Seq<int>|
                #![trigger completes(c@, d@, th, f, i as int, sigma@, used@)]
                completes(c@, d@, th, f, i as int, sigma@, used@) && f[i as int] == j implies !(c@[i as int].apply(
                th,
            ).lhs == a@ && c@[i as int].apply(th).rhs == b@) by {
                if ci@.lhs.apply(th) == a@ {
                    assert(agrees(th, sa));
                    assert(ci@.rhs.apply(th) != b@);
                }
            }
        }
        return false;
    }
    let mut used2 = used.clone();
    used2[j] = true;
    proof {
        assert(used2@ =~= used@.update(j as int, true));
    }
    let cn = c.size();
    let r = subsumes_from(c, d, i + 1, &s1, &used2);
    proof {
        assert(extends(s1@, sigma@)) by {
            assert forall|x: int| sigma@.dom().contains(x) implies #[trigger] s1@.dom().contains(x)
                && s1@[x] == sigma@[x] by {
                assert(sa.dom().contains(x) && sa[x] == sigma@[x]);
            }
        }
        let i1 = i as int + 1;
        if r {
            let (th, f) = choose|th: SubstV, f: Seq<int>|
                #![trigger completes(c@, d@, th, f, i1, s1@, used2@)]
                completes(c@, d@, th, f, i1, s1@, used2@);
            let f2 = f.update(i as int, j as int);
            lemma_agrees_extends(th, s1@, sigma@);
            assert forall|x: int| ci@.lhs.occurs(x) implies s1@.dom().contains(x) by {
                assert(sa.dom().contains(x));
            }
            lemma_agrees_apply(th, s1@, ci@.lhs);
            lemma_agrees_apply(th, s1@, ci@.rhs);
            assert forall|x: int| ci@.lhs.occurs(x) implies TermV::Var(x).apply(s1@) == TermV::Var(
                x,
            ).apply(sa) by {
                assert(sa.dom().contains(x));
                assert(s1@.dom().contains(x) && s1@[x] == sa[x]);
            }
            lemma_apply_agree(ci@.lhs, s1@, sa);
            assert(c@[i as int].apply(th).same(d@[j as int]));
            assert forall|k: int| i <= k < c@.len() implies 0 <= #[trigger] f2[k] < d@.len()
                && c@[k].apply(th).same(d@[f2[k]]) && !used@[f2[k]] by {
                if k > i {
                    assert(f2[k] == f[k]);
                    assert(!used2@[f[k]]);
                }
            }
            assert forall|k: int, l: int| i <= k < l < c@.len() implies #[trigger] f2[k]
                != #[trigger] f2[l] by {
                assert(!used2@[f[l]]);
                if k > i {
                    assert(f[k] != f[l]);
                }
            }
            assert(completes(c@, d@, th, f2, i as int, sigma@, used@));
        } else {
            assert forall|th: SubstV, f: Seq<int>|
                #![trigger completes(c@, d@, th, f, i as int, sigma@, used@)]
                completes(c@, d@, th, f, i as int, sigma@, used@) && f[i as int] == j implies !(c@[i as int].apply(
                th,
            ).lhs == a@ && c@[i as int].apply(th).rhs == b@) by {
                if ci@.lhs.apply(th) == a@ && ci@.rhs.apply(th) == b@ {
                    assert(agrees(th, sa));
                    assert(agrees(th, s1@));
                    assert forall|k: int| i + 1 <= k < c@.len() implies !used2@[#[trigger] f[k]] by {
                        assert(f[i as int] != f[k]);
                        assert(!used@[f[k]]);
                    }
                    assert(completes(c@, d@, th, f, i1, s1@, used2@));
                }
            }
        }
    }
    r
}

/// Tries to match the literals of `c` from the `i`-th on against literals
/// of `d` that are not marked as used, one for each, under bindings that
/// keep those of `sigma`.
fn subsumes_from(c: &Clause, d: &Clause, i: usize, sigma: &Substitution, used: &Vec<bool>) -> (r:
    bool)
    requires
        i <= c@.len(),
        used@.len() == d@.len(),
    ensures
        r == exists|th: SubstV, f: Seq<int>| completes(c@, d@, th, f, i as int, sigma@, used@),
    decreases c@.len() - i, 1int,
{
    if i == c.size() {
        proof {
            let f = Seq::new(c@.len(), |k: int| 0int);
            assert(completes(c@, d@, sigma@, f, i as int, sigma@, used@));
        }
        return true;
    }
    let n = d.size();
    let mut j: usize = 0;
    while j < n
        invariant
            0 <= j <= n,
            n == d@.len(),
            i < c@.len(),
            used@.len() == d@.len(),
            forall|th: SubstV, f: Seq<int>|
                #![trigger completes(c@, d@, th, f, i as int, sigma@, used@)]
                completes(c@, d@, th, f, i as int, sigma@, used@) ==> f[i as int] >= j,
        decreases n - j,
    {
        if !used[j] && c.at(i).is_positive() == d.at(j).is_positive() {
            if subsumes_by(c, d, i, j, true, sigma, used) {
                return true;
            }
            if subsumes_by(c, d, i, j, false, sigma, used) {
                return true;
            }
        }
        proof {
            assert forall|th: SubstV, f: Seq<int>|
                #![trigger completes(c@, d@, th, f, i as int, sigma@, used@)]
                completes(c@, d@, th, f, i as int, sigma@, used@) implies f[i as int] >= j + 1 by {
                if f[i as int] == j {
                    assert(!used@[f[i as int]]);
                    assert(c@[i as int].apply(th).same(d@[f[i as int]]));
                }
            }
        }
        j += 1;
    }
    proof {
        assert forall|th: SubstV, f: Seq<int>|
            !completes(c@, d@, th, f, i as int, sigma@, used@) by {
            if completes(c@, d@, th, f, i as int, sigma@, used@) {
                assert(0 <= f[i as int] < d@.len());
            }
        }
    }
    false
}

/// Checks whether the clause `c` subsumes the clause `d`: some instance of
/// `c` is a sub-multiset of `d`.
pub fn subsumes(c: &Clause, d: &Clause) -> (r: bool)
    ensures
        r == subsumes_spec(c@, d@),
{
    if c.size() > d.size() {
        proof {
            assert forall|th: SubstV, f: Seq<int>| !embedding(c@, d@, th, f, 0) by {
                if embedding(c@, d@, th, f, 0) {
                    lemma_injection_bound(f, c@.len() as int, d@.len() as int);
                }
            }
        }
        return false;
    }
    let sigma = Substitution::new();
    let mut used: Vec<bool> = Vec::new();
    let n = d.size();
    let mut j: usize = 0;
    while j < n
        invariant
            0 <= j <= n,
            used@.len() == j,
            forall|k: int| 0 <= k < j ==> !used@[k],
        decreases n - j,
    {
        used.push(false);
        j += 1;
    }
    let r = subsumes_from(c, d, 0, &sigma, &used);
    proof {
        if r {
            let (th, f) = choose|th: SubstV, f: Seq<int>|
                completes(c@, d@, th, f, 0, sigma@, used@);
            assert(embedding(c@, d@, th, f, 0));
        }
        if subsumes_spec(c@, d@) {
            let (th, f) = choose|th: SubstV, f: Seq<int>| embedding(c@, d@, th, f, 0);
            assert(completes(c@, d@, th, f, 0, sigma@, used@));
        }
    }
    r
}

/// A sequence of `n` different numbers below `m` has at most `m` numbers.
proof fn lemma_injection_bound(f: Seq<int>, n: int, m: int)
    requires
        0 <= n <= f.len(),
        0 <= m,
        forall|k: int| 0 <= k < n ==> 0 <= #[trigger] f[k] < m,
        forall|k: int, l: int| 0 <= k < l < n ==> #[trigger] f[k] != #[trigger] f[l],
    ensures
        n <= m,
    decreases m,
{
    if n > 0 {
        if m == 0 {
            assert(0 <= f[0] < m);
        } else {
            // drop the place that holds m - 1, if any, and count the rest below m - 1
            if exists|k: int| 0 <= k < n && f[k] == m - 1 {
                let k = choose|k: int| 0 <= k < n && f[k] == m - 1;
                let g = Seq::new((n - 1) as nat, |x: int| if x < k { f[x] } else { f[x + 1] });
                assert forall|x: int| 0 <= x < n - 1 implies 0 <= #[trigger] g[x] < m - 1 by {
                    if x < k {
                        assert(f[x] != f[k]);
                    } else {
                        assert(f[k] != f[x + 1]);
                    }
                }
                assert forall|x: int, y: int| 0 <= x < y < n - 1 implies #[trigger] g[x]
                    != #[trigger] g[y] by {
                    let x2 = if x < k { x } else { x + 1 };
                    let y2 = if y < k { y } else { y + 1 };
                    assert(f[x2] != f[y2]);
                }
                lemma_injection_bound(g, n - 1, m - 1);
            } else {
                assert forall|x: int| 0 <= x < n implies 0 <= #[trigger] f[x] < m - 1 by {}
                lemma_injection_bound(f, n, m - 1);
            }
        }
    }
}

/// A model of a clause is a model of every clause that it subsumes.
pub proof fn lemma_subsumption_sound(m: Interpretation, c: ClauseV, d: ClauseV)
    requires
        subsumes_spec(c, d),
        models(m, c),
    ensures
        models(m, d),
{
    let (th, f) = choose|th: SubstV, f: Seq<int>| embedding(c, d, th, f, 0);
    assert forall|v: Valuation| #[trigger] clause_holds(d, m, v) by {
        let w = pull(th, m, v);
        assert(clause_holds(c, m, w));
        let i = choose|i: int| 0 <= i < c.len() && literal_holds(#[trigger] c[i], m, w);
        lemma_literal_apply(c[i], th, m, v);
        assert(c[i].apply(th).same(d[f[i]]));
        assert(literal_holds(d[f[i]], m, v));
    }
}

} // verus!
