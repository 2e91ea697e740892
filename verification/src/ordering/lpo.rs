//! The lexicographic path ordering.
use crate::ordering::precedence::Precedence;
use crate::term::{Term, TermV};
use vstd::prelude::*;

verus! {

/// Whether `s` is greater than `t` in the lexicographic path ordering: some
/// argument of `s` is `t` or greater than `t`; or `s` is greater than every
/// argument of `t`, and either the head of `s` is above the head of `t`, or
/// the heads are the same and the arguments of `s` are greater at the first
/// place where they differ.
pub open spec fn lpo_greater(p: Precedence, s: TermV, t: TermV) -> bool
    decreases s, t,
{
    match s {
        TermV::Var(_) => false,
        TermV::Fun(_, _, ss) => {
            ||| exists|i: int|
                0 <= i < ss.len() && ((#[trigger] ss[i]) == t || lpo_greater(p, ss[i], t))
            ||| match t {
                TermV::Var(_) => false,
                TermV::Fun(_, _, ts) => {
                    &&& forall|j: int| 0 <= j < ts.len() ==> lpo_greater(p, s, #[trigger] ts[j])
                    &&& (p.greater(s, t) || (s.same_head(t) && exists|k: int|
                        0 <= k < ss.len() && k < ts.len() && lpo_greater(
                            p,
                            #[trigger] ss[k],
                            ts[k],
                        ) && forall|j: int| 0 <= j < k ==> (#[trigger] ss[j]) == ts[j]))
                },
            }
        },
    }
}

/// Whether `s` is `t` or greater than `t`.
pub open spec fn lpo_greater_eq(p: Precedence, s: TermV, t: TermV) -> bool {
    s == t || lpo_greater(p, s, t)
}

/// Whether the arguments of `s` are greater than those of `t` at the first
/// place where they differ.
fn lexord(p: &Precedence, s: &Term, t: &Term) -> (r: bool)
    requires
        s@.same_head(t@),
    ensures
        r == exists|k: int|
            0 <= k < s@.args().len() && k < t@.args().len() && lpo_greater(
                *p,
                #[trigger] s@.args()[k],
                t@.args()[k],
            ) && forall|j: int| 0 <= j < k ==> (#[trigger] s@.args()[j]) == t@.args()[j],
    decreases s, t, 0int,
{
    let n = s.args.len();
    let mut i: usize = 0;
    while i < n
        invariant
            0 <= i <= n,
            s.id >= 0,
            t.id >= 0,
            n == s.args.len(),
            n == t.args.len(),
            forall|j: int| 0 <= j < i ==> s.args[j]@ == t.args[j]@,
        decreases n - i,
    {
        if lpo_gt(p, &s.args[i], &t.args[i]) {
            proof {
                let k = i as int;
                assert(s@.args()[k] == s.args[k]@ && t@.args()[k] == t.args[k]@);
                assert forall|j: int| 0 <= j < k implies (#[trigger] s@.args()[j]) == t@.args()[j] by {
                    assert(s.args[j]@ == t.args[j]@);
                }
            }
            return true;
        } else if !s.args[i].equals(&t.args[i]) {
            proof {
                let m = i as int;
                assert(s@.args()[m] == s.args[m]@ && t@.args()[m] == t.args[m]@);
                assert forall|k: int|
                    0 <= k < s@.args().len() && k < t@.args().len() && lpo_greater(
                        *p,
                        #[trigger] s@.args()[k],
                        t@.args()[k],
                    ) implies !(forall|j: int| 0 <= j < k ==> (#[trigger] s@.args()[j]) == t@.args()[j]) by {
                    if k < m {
                        assert(s.args[k]@ == t.args[k]@);
                        lemma_lpo_irreflexive_at(*p, s@.args()[k], t@.args()[k]);
                    } else if k > m {
                        assert(s@.args()[m] != t@.args()[m]);
                    }
                }
            }
            return false;
        }
        i += 1;
    }
    proof {
        assert forall|k: int|
            0 <= k < s@.args().len() && k < t@.args().len() implies !lpo_greater(
            *p,
            #[trigger] s@.args()[k],
            t@.args()[k],
        ) by {
            assert(s.args[k]@ == t.args[k]@);
            lemma_lpo_irreflexive_at(*p, s@.args()[k], t@.args()[k]);
        }
    }
    false
}

/// Returns true if s is greater than t according to the LPO.
pub fn lpo_gt(precedence: &Precedence, s: &Term, t: &Term) -> (r: bool)
    ensures
        r == lpo_greater(*precedence, s@, t@),
    decreases s, t, 1int,
{
    if s.is_variable() {
        return false;
    }
    let n = s.args.len();
    let mut i: usize = 0;
    while i < n
        invariant
            0 <= i <= n,
            s.id >= 0,
            n == s.args.len(),
            forall|j: int| 0 <= j < i ==> !lpo_greater_eq(*precedence, s.args[j]@, t@),
        decreases n - i,
    {
        if lpo_ge(precedence, &s.args[i], t) {
            proof {
                assert(s@.args()[i as int] == s.args[i as int]@);
            }
            return true;
        }
        i += 1;
    }
    proof {
        assert forall|j: int| 0 <= j < s@.args().len() implies !((#[trigger] s@.args()[j]) == t@
            || lpo_greater(*precedence, s@.args()[j], t@)) by {
            assert(!lpo_greater_eq(*precedence, s.args[j]@, t@));
        }
    }
    if t.is_variable() {
        return false;
    }
    let m = t.args.len();
    let mut j: usize = 0;
    while j < m
        invariant
            0 <= j <= m,
            s.id >= 0,
            t.id >= 0,
            m == t.args.len(),
            forall|j: int|
                0 <= j < s@.args().len() ==> !((#[trigger] s@.args()[j]) == t@ || lpo_greater(
                    *precedence,
                    s@.args()[j],
                    t@,
                )),
            forall|k: int| 0 <= k < j ==> lpo_greater(*precedence, s@, t.args[k]@),
        decreases m - j,
    {
        if !lpo_gt(precedence, s, &t.args[j]) {
            proof {
                let ts = t@.args();
                assert(ts[j as int] == t.args[j as int]@);
                assert(!lpo_greater(*precedence, s@, ts[j as int]));
                assert(!(forall|k: int|
                    0 <= k < ts.len() ==> lpo_greater(*precedence, s@, #[trigger] ts[k])));
                assert(s@ is Fun && t@ is Fun);
                let ss = s@.args();
                assert(!(exists|i: int|
                    0 <= i < ss.len() && ((#[trigger] ss[i]) == t@ || lpo_greater(
                        *precedence,
                        ss[i],
                        t@,
                    ))));
                assert(s@ == TermV::Fun(s@.id(), s@.predicate(), ss));
                assert(t@ == TermV::Fun(t@.id(), t@.predicate(), ts));
                assert(!lpo_greater(*precedence, s@, t@));
            }
            return false;
        }
        j += 1;
    }
    proof {
        assert forall|k: int| 0 <= k < t@.args().len() implies lpo_greater(
            *precedence,
            s@,
            #[trigger] t@.args()[k],
        ) by {
            assert(t@.args()[k] == t.args[k]@);
        }
    }
    if precedence.gt(s, t) {
        return true;
    }
    if s.id == t.id && s.predicate == t.predicate && s.args.len() == t.args.len() {
        return lexord(precedence, s, t);
    }
    proof {
        assert(s@.args().len() == s.args.len());
        assert(t@.args().len() == t.args.len());
    }
    false
}

/// Returns true if s is greater than or equal to t according to the LPO.
pub fn lpo_ge(precedence: &Precedence, s: &Term, t: &Term) -> (r: bool)
    ensures
        r == lpo_greater_eq(*precedence, s@, t@),
    decreases s, t, 2int,
{
    s.equals(t) || lpo_gt(precedence, s, t)
}

/// Equal terms that were found greater contradict each other; used where the
/// first differing place is looked for.
proof fn lemma_lpo_irreflexive_at(p: Precedence, s: TermV, t: TermV)
    requires
        s == t,
    ensures
        !lpo_greater(p, s, t),
{
    lemma_lpo_irreflexive(p, s);
}

/// The ordering is transitive.
pub proof fn lemma_lpo_transitive(p: Precedence, s: TermV, t: TermV, u: TermV)
    requires
        lpo_greater(p, s, t),
        lpo_greater(p, t, u),
    ensures
        lpo_greater(p, s, u),
    decreases s.size() + t.size() + u.size(),
{
    let ss = s.args();
    let ts = t.args();
    let us = u.args();
    if exists|i: int| 0 <= i < ss.len() && ((#[trigger] ss[i]) == t || lpo_greater(p, ss[i], t)) {
        let i = choose|i: int|
            0 <= i < ss.len() && ((#[trigger] ss[i]) == t || lpo_greater(p, ss[i], t));
        crate::term::lemma_size_sum_index(ss, i);
        if ss[i] != t {
            lemma_lpo_transitive(p, ss[i], t, u);
        }
        assert(ss[i] == u || lpo_greater(p, ss[i], u));
    } else if exists|i: int|
        0 <= i < ts.len() && ((#[trigger] ts[i]) == u || lpo_greater(p, ts[i], u)) {
        let i = choose|i: int|
            0 <= i < ts.len() && ((#[trigger] ts[i]) == u || lpo_greater(p, ts[i], u));
        crate::term::lemma_size_sum_index(ts, i);
        assert(lpo_greater(p, s, ts[i]));
        if ts[i] != u {
            lemma_lpo_transitive(p, s, ts[i], u);
        }
    } else {
        // both by the second case: all three are applications
        assert forall|j: int| 0 <= j < us.len() implies lpo_greater(p, s, #[trigger] us[j]) by {
            crate::term::lemma_size_sum_index(us, j);
            assert(lpo_greater(p, t, us[j]));
            lemma_lpo_transitive(p, s, t, us[j]);
        }
        if p.greater(s, t) {
            if p.greater(t, u) {
                crate::ordering::precedence::lemma_precedence_transitive(p, s, t, u);
            } else {
                crate::ordering::precedence::lemma_precedence_head(p, s, s, t, u);
            }
        } else {
            if p.greater(t, u) {
                crate::ordering::precedence::lemma_precedence_head(p, t, s, u, u);
            } else {
                let k1 = choose|k: int|
                    0 <= k < ss.len() && k < ts.len() && lpo_greater(p, #[trigger] ss[k], ts[k])
                        && forall|j: int| 0 <= j < k ==> (#[trigger] ss[j]) == ts[j];
                let k2 = choose|k: int|
                    0 <= k < ts.len() && k < us.len() && lpo_greater(p, #[trigger] ts[k], us[k])
                        && forall|j: int| 0 <= j < k ==> (#[trigger] ts[j]) == us[j];
                let k = if k1 < k2 {
                    k1
                } else {
                    k2
                };
                crate::term::lemma_size_sum_index(ss, k);
                crate::term::lemma_size_sum_index(ts, k);
                crate::term::lemma_size_sum_index(us, k);
                if k1 < k2 {
                    assert(ts[k1] == us[k1]);
                } else if k2 < k1 {
                    assert(ss[k2] == ts[k2]);
                } else {
                    lemma_lpo_transitive(p, ss[k], ts[k], us[k]);
                }
                assert(lpo_greater(p, ss[k], us[k]));
                assert forall|j: int| 0 <= j < k implies (#[trigger] ss[j]) == us[j] by {
                    assert(ss[j] == ts[j]);
                    assert(ts[j] == us[j]);
                }
            }
        }
    }
}

/// No term is greater than itself.
pub proof fn lemma_lpo_irreflexive(p: Precedence, s: TermV)
    ensures
        !lpo_greater(p, s, s),
    decreases s,
{
    if lpo_greater(p, s, s) {
        let ss = s.args();
        if exists|i: int| 0 <= i < ss.len() && ((#[trigger] ss[i]) == s || lpo_greater(p, ss[i], s)) {
            let i = choose|i: int|
                0 <= i < ss.len() && ((#[trigger] ss[i]) == s || lpo_greater(p, ss[i], s));
            crate::term::lemma_size_sum_index(ss, i);
            assert(ss[i] != s);
            assert(lpo_greater(p, s, ss[i]));
            lemma_lpo_transitive(p, ss[i], s, ss[i]);
            lemma_lpo_irreflexive(p, ss[i]);
        } else {
            let k = choose|k: int|
                0 <= k < ss.len() && k < ss.len() && lpo_greater(p, #[trigger] ss[k], ss[k])
                    && forall|j: int| 0 <= j < k ==> (#[trigger] ss[j]) == ss[j];
            lemma_lpo_irreflexive(p, ss[k]);
        }
    }
}

/// The ordering is stable under substitution.
pub proof fn lemma_lpo_stable(p: Precedence, s: TermV, t: TermV, sigma: crate::term::SubstV)
    requires
        lpo_greater(p, s, t),
    ensures
        lpo_greater(p, s.apply(sigma), t.apply(sigma)),
    decreases s, t,
{
    let ss = s.args();
    let ts = t.args();
    let s2 = s.apply(sigma);
    let t2 = t.apply(sigma);
    if exists|i: int| 0 <= i < ss.len() && ((#[trigger] ss[i]) == t || lpo_greater(p, ss[i], t)) {
        let i = choose|i: int|
            0 <= i < ss.len() && ((#[trigger] ss[i]) == t || lpo_greater(p, ss[i], t));
        if ss[i] != t {
            lemma_lpo_stable(p, ss[i], t, sigma);
        }
        assert(s2.args()[i] == ss[i].apply(sigma));
        assert(s2.args()[i] == t2 || lpo_greater(p, s2.args()[i], t2));
    } else {
        assert forall|j: int| 0 <= j < t2.args().len() implies lpo_greater(
            p,
            s2,
            #[trigger] t2.args()[j],
        ) by {
            assert(lpo_greater(p, s, ts[j]));
            lemma_lpo_stable(p, s, ts[j], sigma);
        }
        crate::ordering::precedence::lemma_precedence_head(p, s, s2, t, t2);
        if !p.greater(s, t) {
            let k = choose|k: int|
                0 <= k < ss.len() && k < ts.len() && lpo_greater(p, #[trigger] ss[k], ts[k])
                    && forall|j: int| 0 <= j < k ==> (#[trigger] ss[j]) == ts[j];
            lemma_lpo_stable(p, ss[k], ts[k], sigma);
            assert(lpo_greater(p, s2.args()[k], t2.args()[k]));
            assert forall|j: int| 0 <= j < k implies (#[trigger] s2.args()[j]) == t2.args()[j] by {
                assert(ss[j] == ts[j]);
            }
        }
    }
}

/// The ordering is monotone: replacing an argument by a smaller term gives a
/// smaller term.
pub proof fn lemma_lpo_monotone(p: Precedence, f: TermV, k: int, t: TermV)
    requires
        f is Fun,
        0 <= k < f.args().len(),
        lpo_greater(p, f.args()[k], t),
    ensures
        lpo_greater(
            p,
            f,
            TermV::Fun(f.id(), f.predicate(), f.args().update(k, t)),
        ),
{
    let ss = f.args();
    let g = TermV::Fun(f.id(), f.predicate(), ss.update(k, t));
    let ts = g.args();
    assert forall|j: int| 0 <= j < ts.len() implies lpo_greater(p, f, #[trigger] ts[j]) by {
        if j == k {
            assert(ss[k] == t || lpo_greater(p, ss[k], t));
        } else {
            assert(ss[j] == ts[j]);
        }
    }
    assert(f.same_head(g));
    assert(lpo_greater(p, ss[k], ts[k]));
    assert forall|j: int| 0 <= j < k implies (#[trigger] ss[j]) == ts[j] by {}
}

} // verus!
