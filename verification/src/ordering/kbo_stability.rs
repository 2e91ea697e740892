//! The Knuth-Bendix ordering is stable under substitution.
use crate::ordering::kbo::{kbo_greater, term_weight, vars_dominate};
use crate::ordering::precedence::{lemma_precedence_head, Precedence};
use crate::ordering::weight::Weight;
use crate::term::{count_sum, weighted_sum, SubstV, TermV};
use crate::unification::lemma_vars_finite;
use vstd::prelude::*;

verus! {

/// The sum of `phi` over the occurrences in `u` of the variables of `vs`.
pub open spec fn spread(u: TermV, phi: spec_fn(int) -> int, vs: Set<int>) -> int
    decreases u,
{
    match u {
        TermV::Var(x) => if vs.contains(x) { phi(x) } else { 0 },
        TermV::Fun(_, _, args) => spread_sum(args, phi, vs),
    }
}

/// The sum of `phi` over the occurrences in the terms of the variables of `vs`.
pub open spec fn spread_sum(ts: Seq<TermV>, phi: spec_fn(int) -> int, vs: Set<int>) -> int
    decreases ts,
{
    if ts.len() == 0 {
        0
    } else {
        spread(ts.last(), phi, vs) + spread_sum(ts.drop_last(), phi, vs)
    }
}

/// One more variable adds `phi` of it for each of its occurrences.
proof fn lemma_spread_insert(u: TermV, phi: spec_fn(int) -> int, vs: Set<int>, x: int)
    requires
        !vs.contains(x),
    ensures
        spread(u, phi, vs.insert(x)) == spread(u, phi, vs) + u.count(x) * phi(x),
    decreases u, 1int,
{
    let c = phi(x);
    match u {
        TermV::Var(z) => {
            if z == x {
                assert(1 * c == c) by (nonlinear_arith);
            } else {
                assert(0 * c == 0) by (nonlinear_arith);
            }
        },
        TermV::Fun(_, _, args) => lemma_spread_sum_insert(args, phi, vs, x),
    }
}

/// One more variable adds `phi` of it for each of its occurrences in the terms.
proof fn lemma_spread_sum_insert(ts: Seq<TermV>, phi: spec_fn(int) -> int, vs: Set<int>, x: int)
    requires
        !vs.contains(x),
    ensures
        spread_sum(ts, phi, vs.insert(x)) == spread_sum(ts, phi, vs) + count_sum(ts, x) * phi(x),
    decreases ts, 0int,
{
    if ts.len() > 0 {
        lemma_spread_insert(ts.last(), phi, vs, x);
        lemma_spread_sum_insert(ts.drop_last(), phi, vs, x);
        let a = ts.last().count(x) as int;
        let b = count_sum(ts.drop_last(), x) as int;
        let c = phi(x);
        assert(count_sum(ts, x) == a + b);
        assert((a + b) * c == a * c + b * c) by (nonlinear_arith);
    } else {
        let c = phi(x);
        assert(0 * c == 0) by (nonlinear_arith);
    }
}

/// Over no variables the sum is zero.
proof fn lemma_spread_empty(u: TermV, phi: spec_fn(int) -> int)
    ensures
        spread(u, phi, Set::empty()) == 0,
    decreases u, 1int,
{
    match u {
        TermV::Var(_) => {},
        TermV::Fun(_, _, args) => lemma_spread_sum_empty(args, phi),
    }
}

/// Over no variables the sum is zero.
proof fn lemma_spread_sum_empty(ts: Seq<TermV>, phi: spec_fn(int) -> int)
    ensures
        spread_sum(ts, phi, Set::empty()) == 0,
    decreases ts, 0int,
{
    if ts.len() > 0 {
        lemma_spread_empty(ts.last(), phi);
        lemma_spread_sum_empty(ts.drop_last(), phi);
    }
}

/// Variables that do not occur in the term do not matter.
proof fn lemma_spread_cover(u: TermV, phi: spec_fn(int) -> int, vs: Set<int>)
    requires
        forall|x: int| u.occurs(x) ==> vs.contains(x),
    ensures
        spread(u, phi, vs) == spread(u, phi, Set::full()),
    decreases u, 1int,
{
    match u {
        TermV::Var(x) => {
            assert(u.occurs(x));
        },
        TermV::Fun(_, _, args) => {
            assert forall|i: int, x: int| 0 <= i < args.len() && #[trigger] args[i].occurs(
                x,
            ) implies vs.contains(x) by {
                assert(u.occurs(x));
            }
            lemma_spread_sum_cover(args, phi, vs);
        },
    }
}

/// Variables that do not occur in the terms do not matter.
proof fn lemma_spread_sum_cover(ts: Seq<TermV>, phi: spec_fn(int) -> int, vs: Set<int>)
    requires
        forall|i: int, x: int| 0 <= i < ts.len() && #[trigger] ts[i].occurs(x) ==> vs.contains(x),
    ensures
        spread_sum(ts, phi, vs) == spread_sum(ts, phi, Set::full()),
    decreases ts, 0int,
{
    if ts.len() > 0 {
        assert forall|x: int| ts.last().occurs(x) implies vs.contains(x) by {
            assert(ts[ts.len() - 1].occurs(x));
        }
        lemma_spread_cover(ts.last(), phi, vs);
        assert forall|i: int, x: int|
            0 <= i < ts.drop_last().len() && #[trigger] ts.drop_last()[i].occurs(
                x,
            ) implies vs.contains(x) by {
            assert(ts[i].occurs(x));
        }
        lemma_spread_sum_cover(ts.drop_last(), phi, vs);
    }
}

/// Where every variable occurs in `s` at least as often as in `t`, a sum of
/// numbers that are not negative over the occurrences in `s` is at least
/// the sum over the occurrences in `t`.
proof fn lemma_spread_dominated(s: TermV, t: TermV, phi: spec_fn(int) -> int, vs: Set<int>)
    requires
        vs.finite(),
        vars_dominate(s, t),
        forall|x: int| #[trigger] phi(x) >= 0,
    ensures
        spread(t, phi, vs) <= spread(s, phi, vs),
    decreases vs.len(),
{
    if vs.len() == 0 {
        assert(vs =~= Set::empty());
        lemma_spread_empty(s, phi);
        lemma_spread_empty(t, phi);
    } else {
        let x = vs.choose();
        let rest = vs.remove(x);
        assert(vs =~= rest.insert(x));
        lemma_spread_dominated(s, t, phi, rest);
        lemma_spread_insert(s, phi, rest, x);
        lemma_spread_insert(t, phi, rest, x);
        let a = t.count(x) as int;
        let b = s.count(x) as int;
        let c = phi(x);
        assert(a <= b);
        assert(a * c <= b * c) by (nonlinear_arith)
            requires
                a <= b,
                c >= 0,
        ;
    }
}

/// How often the variable `y` occurs in the image of `x`.
pub open spec fn image_count(sigma: SubstV, y: int) -> spec_fn(int) -> int {
    |x: int| TermV::Var(x).apply(sigma).count(y) as int
}

/// How much more the image of `x` weighs than `x`.
pub open spec fn image_gain(sigma: SubstV, w: Weight, v: u64) -> spec_fn(int) -> int {
    |x: int| term_weight(w, v, TermV::Var(x).apply(sigma)) - v
}

/// A variable occurs in an instance as often as in the images of the
/// variable occurrences of the term together.
proof fn lemma_count_apply(u: TermV, sigma: SubstV, y: int)
    ensures
        u.apply(sigma).count(y) == spread(u, image_count(sigma, y), Set::full()),
    decreases u, 1int,
{
    match u {
        TermV::Var(x) => {
            assert(image_count(sigma, y)(x) == TermV::Var(x).apply(sigma).count(y));
        },
        TermV::Fun(_, _, args) => {
            lemma_count_sum_apply(args, u.apply(sigma).args(), sigma, y);
        },
    }
}

/// The same for the terms of a sequence and their instances.
proof fn lemma_count_sum_apply(ts: Seq<TermV>, us: Seq<TermV>, sigma: SubstV, y: int)
    requires
        us.len() == ts.len(),
        forall|i: int| 0 <= i < ts.len() ==> us[i] == (#[trigger] ts[i]).apply(sigma),
    ensures
        count_sum(us, y) == spread_sum(ts, image_count(sigma, y), Set::full()),
    decreases ts, 0int,
{
    if ts.len() > 0 {
        assert(us.last() == ts[ts.len() - 1].apply(sigma));
        lemma_count_apply(ts.last(), sigma, y);
        assert forall|i: int| 0 <= i < ts.drop_last().len() implies us.drop_last()[i] == (
        #[trigger] ts.drop_last()[i]).apply(sigma) by {
            assert(us[i] == ts[i].apply(sigma));
        }
        lemma_count_sum_apply(ts.drop_last(), us.drop_last(), sigma, y);
    }
}

/// An instance weighs what the term weighs and what the images of its
/// variable occurrences weigh more than variables.
proof fn lemma_weight_apply(u: TermV, sigma: SubstV, w: Weight, v: u64)
    ensures
        term_weight(w, v, u.apply(sigma)) == term_weight(w, v, u) + spread(
            u,
            image_gain(sigma, w, v),
            Set::full(),
        ),
    decreases u, 1int,
{
    match u {
        TermV::Var(x) => {
            assert(image_gain(sigma, w, v)(x) == term_weight(w, v, TermV::Var(x).apply(sigma)) - v);
        },
        TermV::Fun(_, _, args) => {
            lemma_weight_sum_apply(args, u.apply(sigma).args(), sigma, w, v);
        },
    }
}

/// The same for the terms of a sequence and their instances.
proof fn lemma_weight_sum_apply(ts: Seq<TermV>, us: Seq<TermV>, sigma: SubstV, w: Weight, v: u64)
    requires
        us.len() == ts.len(),
        forall|i: int| 0 <= i < ts.len() ==> us[i] == (#[trigger] ts[i]).apply(sigma),
    ensures
        weighted_sum(us, w.symbol as nat, v as nat) == weighted_sum(ts, w.symbol as nat, v as nat)
            + spread_sum(ts, image_gain(sigma, w, v), Set::full()),
    decreases ts, 0int,
{
    if ts.len() > 0 {
        assert(us.last() == ts[ts.len() - 1].apply(sigma));
        lemma_weight_apply(ts.last(), sigma, w, v);
        assert forall|i: int| 0 <= i < ts.drop_last().len() implies us.drop_last()[i] == (
        #[trigger] ts.drop_last()[i]).apply(sigma) by {
            assert(us[i] == ts[i].apply(sigma));
        }
        lemma_weight_sum_apply(ts.drop_last(), us.drop_last(), sigma, w, v);
    }
}

/// Where no symbol weighs less than a variable, no term does.
pub proof fn lemma_weight_least(t: TermV, w: Weight, v: u64)
    requires
        v <= w.symbol,
    ensures
        term_weight(w, v, t) >= v,
{
}

/// The ordering is stable under substitution, where a variable weighs
/// something and no symbol weighs less than a variable.
pub proof fn lemma_kbo_stable(p: Precedence, w: Weight, v: u64, s: TermV, t: TermV, sigma: SubstV)
    requires
        1 <= v <= w.symbol,
        kbo_greater(p, w, v, s, t),
    ensures
        kbo_greater(p, w, v, s.apply(sigma), t.apply(sigma)),
    decreases s,
{
    let s2 = s.apply(sigma);
    let t2 = t.apply(sigma);
    let a = lemma_vars_finite(s);
    let b = lemma_vars_finite(t);
    let vs = a.union(b);
    assert forall|y: int| #[trigger] t2.count(y) <= s2.count(y) by {
        let phi = image_count(sigma, y);
        lemma_count_apply(s, sigma, y);
        lemma_count_apply(t, sigma, y);
        lemma_spread_cover(s, phi, vs);
        lemma_spread_cover(t, phi, vs);
        assert forall|x: int| #[trigger] phi(x) >= 0 by {}
        lemma_spread_dominated(s, t, phi, vs);
    }
    let psi = image_gain(sigma, w, v);
    assert forall|x: int| #[trigger] psi(x) >= 0 by {
        lemma_weight_least(TermV::Var(x).apply(sigma), w, v);
    }
    lemma_weight_apply(s, sigma, w, v);
    lemma_weight_apply(t, sigma, w, v);
    lemma_spread_cover(s, psi, vs);
    lemma_spread_cover(t, psi, vs);
    lemma_spread_dominated(s, t, psi, vs);
    if term_weight(w, v, s2) == term_weight(w, v, t2) {
        assert(term_weight(w, v, s) == term_weight(w, v, t));
        let ss = s.args();
        let ts = t.args();
        lemma_precedence_head(p, s, s2, t, t2);
        if !p.greater(s, t) {
            let k = choose|k: int|
                0 <= k < ss.len() && k < ts.len() && kbo_greater(p, w, v, #[trigger] ss[k], ts[k])
                    && forall|j: int| 0 <= j < k ==> (#[trigger] ss[j]) == ts[j];
            lemma_kbo_stable(p, w, v, ss[k], ts[k], sigma);
            assert(kbo_greater(p, w, v, s2.args()[k], t2.args()[k]));
            assert forall|j: int| 0 <= j < k implies (#[trigger] s2.args()[j]) == t2.args()[j] by {
                assert(ss[j] == ts[j]);
            }
        }
    }
}

} // verus!
