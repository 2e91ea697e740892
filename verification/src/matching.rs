//! One-sided matching of a pattern against a term.
use crate::substitution::Substitution;
use crate::term::{lemma_apply_agree, SubstV, Term, TermV};
use vstd::prelude::*;

verus! {

/// Whether `th` gives every variable of the domain of `s` the image that `s` gives it.
pub open spec fn agrees(th: SubstV, s: SubstV) -> bool {
    forall|x: int| s.dom().contains(x) ==> #[trigger] TermV::Var(x).apply(th) == s[x]
}

/// Whether `s2` keeps every binding of `s1`.
pub open spec fn extends(s2: SubstV, s1: SubstV) -> bool {
    forall|x: int|
        #![trigger s1.dom().contains(x)]
        #![trigger s2.dom().contains(x)]
        s1.dom().contains(x) ==> s2.dom().contains(x) && s2[x] == s1[x]
}

/// Whether `s` is the substitution that matches `p` against `q`: it binds
/// exactly the variables of `p`, and the instance of `p` is `q`.
pub open spec fn matcher(s: SubstV, p: TermV, q: TermV) -> bool {
    &&& p.apply(s) == q
    &&& forall|x: int| #[trigger] s.dom().contains(x) <==> p.occurs(x)
}

/// Two substitutions that give a term the same instance agree on its variables.
pub proof fn lemma_apply_injective(t: TermV, s1: SubstV, s2: SubstV, x: int)
    requires
        t.apply(s1) == t.apply(s2),
        t.occurs(x),
    ensures
        TermV::Var(x).apply(s1) == TermV::Var(x).apply(s2),
    decreases t,
{
    match t {
        TermV::Var(_) => {},
        TermV::Fun(_, _, args) => {
            let i = choose|i: int| 0 <= i < args.len() && (#[trigger] args[i]).occurs(x);
            assert(t.apply(s1).args()[i] == args[i].apply(s1));
            assert(t.apply(s2).args()[i] == args[i].apply(s2));
            lemma_apply_injective(args[i], s1, s2, x);
        },
    }
}

/// A pattern has at most one matcher against a term.
pub proof fn lemma_matcher_unique(s1: SubstV, s2: SubstV, p: TermV, q: TermV)
    requires
        matcher(s1, p, q),
        matcher(s2, p, q),
    ensures
        s1 == s2,
{
    assert forall|x: int| s1.dom().contains(x) <==> s2.dom().contains(x) by {}
    assert(s1.dom() =~= s2.dom());
    assert forall|x: int| s1.dom().contains(x) implies s1[x] == s2[x] by {
        assert(p.occurs(x) && s2.dom().contains(x));
        lemma_apply_injective(p, s1, s2, x);
    }
    assert(s1 =~= s2);
}

/// Where the pattern and the term share no variable, no variable of the term
/// is bound by the matcher.
pub proof fn lemma_matcher_apart(s: SubstV, p: TermV, q: TermV)
    requires
        matcher(s, p, q),
        forall|x: int| !(p.occurs(x) && q.occurs(x)),
    ensures
        forall|x: int| q.occurs(x) ==> !s.dom().contains(x),
{
}

/// Extends `sigma` so that the instance of `p` is `q`, where that can be done.
///
/// On success the bindings of `sigma` are kept, the variables of `p` are
/// bound in addition, and every substitution that agrees with the earlier
/// `sigma` and sends `p` to `q` agrees with the new one. Failure means that
/// no substitution that agrees with the earlier `sigma` sends `p` to `q`.
pub fn match_into(p: &Term, q: &Term, sigma: &mut Substitution) -> (r: bool)
    ensures
        r ==> {
            &&& extends(final(sigma)@, old(sigma)@)
            &&& p@.apply(final(sigma)@) == q@
            &&& forall|x: int|
                final(sigma)@.dom().contains(x) <==> old(sigma)@.dom().contains(x) || p@.occurs(x)
            &&& forall|th: SubstV|
                agrees(th, old(sigma)@) && #[trigger] p@.apply(th) == q@ ==> agrees(
                    th,
                    final(sigma)@,
                )
        },
        !r ==> forall|th: SubstV| agrees(th, old(sigma)@) ==> #[trigger] p@.apply(th) != q@,
    decreases p,
{
    if p.id < 0 {
        match sigma.get(p) {
            Some(u) => {
                let r = u.equals(q);
                proof {
                    if !r {
                        assert forall|th: SubstV| agrees(th, old(sigma)@) implies #[trigger] p@.apply(th)
                            != q@ by {
                            assert(TermV::Var(p.id as int).apply(th) == old(sigma)@[p.id as int]);
                        }
                    }
                }
                return r;
            },
            None => {
                sigma.insert(p.id, q.clone());
                proof {
                    assert forall|th: SubstV|
                        agrees(th, old(sigma)@) && #[trigger] p@.apply(th) == q@ implies agrees(
                        th,
                        sigma@,
                    ) by {
                        assert forall|x: int| sigma@.dom().contains(x) implies #[trigger] TermV::Var(
                            x,
                        ).apply(th) == sigma@[x] by {
                            if x != p.id as int {
                                assert(old(sigma)@.dom().contains(x));
                            }
                        }
                    }
                }
                return true;
            },
        }
    }
    if q.id < 0 || p.id != q.id || p.predicate != q.predicate || p.args.len() != q.args.len() {
        proof {
            assert(p@.args().len() == p.args.len());
            if q.id >= 0 {
                assert(q@.args().len() == q.args.len());
            }
            assert forall|th: SubstV| agrees(th, old(sigma)@) implies #[trigger] p@.apply(th) != q@ by {
                assert(p@.apply(th).args().len() == p@.args().len());
            }
        }
        return false;
    }
    let n = p.args.len();
    let mut i: usize = 0;
    while i < n
        invariant
            0 <= i <= n,
            n == p.args.len(),
            n == q.args.len(),
            p.id >= 0,
            q.id >= 0,
            extends(sigma@, old(sigma)@),
            forall|j: int| 0 <= j < i ==> (#[trigger] p.args[j])@.apply(sigma@) == q.args[j]@,
            forall|x: int|
                sigma@.dom().contains(x) <==> old(sigma)@.dom().contains(x) || exists|j: int|
                    0 <= j < i && (#[trigger] p.args[j])@.occurs(x),
            forall|th: SubstV|
                agrees(th, old(sigma)@) && #[trigger] p@.apply(th) == q@ ==> agrees(th, sigma@),
        decreases n - i,
    {
        let ghost before = sigma@;
        let ok = match_into(&p.args[i], &q.args[i], sigma);
        if !ok {
            proof {
                assert forall|th: SubstV| agrees(th, old(sigma)@) implies #[trigger] p@.apply(th)
                    != q@ by {
                    if p@.apply(th) == q@ {
                        assert(agrees(th, before));
                        assert(p@.apply(th).args()[i as int] == p.args[i as int]@.apply(th));
                        assert(q@.args()[i as int] == q.args[i as int]@);
                    }
                }
            }
            return false;
        }
        proof {
            assert forall|j: int| 0 <= j < i + 1 implies (#[trigger] p.args[j])@.apply(sigma@)
                == q.args[j]@ by {
                if j < i {
                    assert forall|x: int| p.args[j]@.occurs(x) implies TermV::Var(x).apply(sigma@)
                        == TermV::Var(x).apply(before) by {
                        assert(before.dom().contains(x));
                        assert(sigma@.dom().contains(x) && sigma@[x] == before[x]);
                    }
                    lemma_apply_agree(p.args[j]@, sigma@, before);
                }
            }
            assert forall|x: int|
                sigma@.dom().contains(x) <==> old(sigma)@.dom().contains(x) || exists|j: int|
                    0 <= j < i + 1 && (#[trigger] p.args[j])@.occurs(x) by {
                if sigma@.dom().contains(x) && !old(sigma)@.dom().contains(x) {
                    if before.dom().contains(x) {
                        let j = choose|j: int| 0 <= j < i && (#[trigger] p.args[j])@.occurs(x);
                        assert(0 <= j < i + 1 && p.args[j]@.occurs(x));
                    } else {
                        assert(p.args[i as int]@.occurs(x));
                    }
                }
                if exists|j: int| 0 <= j < i + 1 && (#[trigger] p.args[j])@.occurs(x) {
                    let j = choose|j: int| 0 <= j < i + 1 && (#[trigger] p.args[j])@.occurs(x);
                    if j < i {
                        assert(before.dom().contains(x));
                    }
                }
            }
            assert forall|th: SubstV|
                agrees(th, old(sigma)@) && #[trigger] p@.apply(th) == q@ implies agrees(
                th,
                sigma@,
            ) by {
                assert(agrees(th, before));
                assert(p@.apply(th).args()[i as int] == p.args[i as int]@.apply(th));
                assert(q@.args()[i as int] == q.args[i as int]@);
            }
            assert(extends(sigma@, old(sigma)@)) by {
                assert forall|x: int| old(sigma)@.dom().contains(x) implies #[trigger] sigma@.dom().contains(
                    x,
                ) && sigma@[x] == old(sigma)@[x] by {
                    assert(before.dom().contains(x) && before[x] == old(sigma)@[x]);
                }
            }
        }
        i += 1;
    }
    proof {
        assert(p@.apply(sigma@).args() =~= q@.args()) by {
            assert forall|j: int| 0 <= j < n implies p@.apply(sigma@).args()[j] == q@.args()[j] by {
                assert(p.args[j]@.apply(sigma@) == q.args[j]@);
            }
        }
        assert forall|x: int|
            sigma@.dom().contains(x) <==> old(sigma)@.dom().contains(x) || p@.occurs(x) by {
            if p@.occurs(x) {
                let j = choose|j: int| 0 <= j < p@.args().len() && (#[trigger] p@.args()[j]).occurs(x);
                assert(p.args[j]@.occurs(x));
            }
            if exists|j: int| 0 <= j < n && (#[trigger] p.args[j])@.occurs(x) {
                let j = choose|j: int| 0 <= j < n && (#[trigger] p.args[j])@.occurs(x);
                assert(p@.args()[j].occurs(x));
            }
        }
    }
    true
}

/// Matches the pattern `p` against `q`: the substitution that binds exactly
/// the variables of `p` and sends `p` to `q`, if there is one. No variable of
/// `q` is bound on the way, and no occurs check is made.
pub fn match_term(p: &Term, q: &Term) -> (r: Option<Substitution>)
    ensures
        match r {
            Some(s) => matcher(s@, p@, q@),
            None => forall|th: SubstV| #[trigger] p@.apply(th) != q@,
        },
{
    let mut s = Substitution::new();
    if match_into(p, q, &mut s) {
        Some(s)
    } else {
        None
    }
}

} // verus!
