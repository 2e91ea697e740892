//! The Knuth-Bendix ordering.
use crate::ordering::precedence::Precedence;
use crate::ordering::weight::Weight;
use crate::term::{clip, count_sum, lemma_count_occurs, weighted_size, weighted_sum, Term, TermV};
use vstd::prelude::*;

verus! {

/// The weight of a term: the sum of the weights of its symbols, each
/// variable occurrence weighing `v`.
pub open spec fn term_weight(w: Weight, v: u64, t: TermV) -> nat {
    weighted_size(t, w.symbol as nat, v as nat)
}

/// Whether every variable occurs in `s` at least as often as in `t`.
pub open spec fn vars_dominate(s: TermV, t: TermV) -> bool {
    forall|x: int| #[trigger] t.count(x) <= s.count(x)
}

/// Whether `s` is greater than `t` in the Knuth-Bendix ordering: every
/// variable occurs in `s` at least as often as in `t`, and either `s` weighs
/// more, or both weigh the same and the head of `s` is above the head of `t`,
/// or the heads are the same and the arguments of `s` are greater at the
/// first place where they differ.
pub open spec fn kbo_greater(p: Precedence, w: Weight, v: u64, s: TermV, t: TermV) -> bool
    decreases s,
{
    &&& vars_dominate(s, t)
    &&& (term_weight(w, v, s) > term_weight(w, v, t) || (term_weight(w, v, s) == term_weight(
        w,
        v,
        t,
    ) && match s {
        TermV::Var(_) => false,
        TermV::Fun(_, _, ss) => t is Fun && (p.greater(s, t) || (s.same_head(t) && exists|k: int|
            0 <= k < ss.len() && k < t.args().len() && kbo_greater(
                p,
                w,
                v,
                #[trigger] ss[k],
                t.args()[k],
            ) && forall|j: int| 0 <= j < k ==> (#[trigger] ss[j]) == t.args()[j])),
    }))
}

/// Whether the weight of a term can be computed: variables weigh something,
/// and the weight is below the largest number.
pub open spec fn kbo_fits(w: Weight, v: u64, t: TermV) -> bool {
    v >= 1 && term_weight(w, v, t) < u64::MAX
}

/// Each term of a sequence weighs no more than all together.
pub proof fn lemma_weighted_sum_index(ts: Seq<TermV>, f: nat, v: nat, i: int)
    requires
        0 <= i < ts.len(),
    ensures
        weighted_size(ts[i], f, v) <= weighted_sum(ts, f, v),
    decreases ts.len(),
{
    if i < ts.len() - 1 {
        lemma_weighted_sum_index(ts.drop_last(), f, v, i);
    }
}

/// Where the variables weigh something, a variable occurs in a sequence of
/// terms no more often than the terms weigh.
proof fn lemma_count_sum_le_weight(ts: Seq<TermV>, x: int, f: nat, v: nat)
    requires
        v >= 1,
    ensures
        count_sum(ts, x) <= weighted_sum(ts, f, v),
    decreases ts, 0int,
{
    if ts.len() > 0 {
        lemma_count_le_weight(ts.last(), x, f, v);
        lemma_count_sum_le_weight(ts.drop_last(), x, f, v);
    }
}

/// Where the variables weigh something, a variable occurs in a term no more
/// often than the term weighs.
pub proof fn lemma_count_le_weight(t: TermV, x: int, f: nat, v: nat)
    requires
        v >= 1,
    ensures
        t.count(x) <= weighted_size(t, f, v),
    decreases t, 1int,
{
    match t {
        TermV::Var(_) => {},
        TermV::Fun(_, _, args) => {
            lemma_count_sum_le_weight(args, x, f, v);
        },
    }
}

/// The number of occurrences of the variable `x`, cut off at the largest number.
pub fn count_var(t: &Term, x: i64) -> (n: u64)
    ensures
        n == clip(t@.count(x as int)),
    decreases t,
{
    if t.id < 0 {
        return if t.id == x {
            1
        } else {
            0
        };
    }
    let len = t.args.len();
    let mut total: u64 = 0;
    let mut i: usize = 0;
    while i < len
        invariant
            0 <= i <= len,
            len == t.args.len(),
            t.id >= 0,
            total == clip(count_sum(t@.args().take(i as int), x as int)),
        decreases len - i,
    {
        let c = count_var(&t.args[i], x);
        proof {
            assert(t@.args()[i as int] == t.args[i as int]@);
            assert(t@.args().take(i as int + 1).drop_last() =~= t@.args().take(i as int));
        }
        total = total.saturating_add(c);
        i += 1;
    }
    proof {
        assert(t@.args().take(len as int) =~= t@.args());
    }
    total
}

/// Whether each variable of `u` occurs in `s` at least as often as in `t`,
/// as far as the numbers of occurrences in `s` are below the largest number.
fn vars_dominate_in(s: &Term, t: &Term, u: &Term) -> (r: bool)
    ensures
        r ==> forall|x: int| u@.occurs(x) ==> t@.count(x) <= s@.count(x),
        (forall|x: int| s@.count(x) < u64::MAX) ==> r == forall|x: int|
            u@.occurs(x) ==> t@.count(x) <= s@.count(x),
    decreases u,
{
    if u.id < 0 {
        let cs = count_var(s, u.id);
        let ct = count_var(t, u.id);
        proof {
            assert(u@.occurs(u.id as int));
            if forall|x: int| s@.count(x) < u64::MAX {
                assert(s@.count(u.id as int) < u64::MAX);
            }
        }
        return cs < u64::MAX && ct <= cs;
    }
    let n = u.args.len();
    let mut i: usize = 0;
    while i < n
        invariant
            0 <= i <= n,
            n == u.args.len(),
            u.id >= 0,
            forall|j: int, x: int|
                0 <= j < i && (#[trigger] u.args[j]@.occurs(x)) ==> t@.count(x) <= s@.count(x),
        decreases n - i,
    {
        if !vars_dominate_in(s, t, &u.args[i]) {
            proof {
                assert(u@.args()[i as int] == u.args[i as int]@);
                if forall|x: int| s@.count(x) < u64::MAX {
                    let x = choose|x: int|
                        u.args[i as int]@.occurs(x) && !(t@.count(x) <= s@.count(x));
                    assert(u@.args()[i as int].occurs(x));
                    assert(u@.occurs(x));
                }
            }
            return false;
        }
        i += 1;
    }
    proof {
        assert forall|x: int| u@.occurs(x) implies t@.count(x) <= s@.count(x) by {
            let j = choose|j: int| 0 <= j < u@.args().len() && (#[trigger] u@.args()[j]).occurs(x);
            assert(u@.args()[j] == u.args[j]@);
            assert(u.args[j]@.occurs(x));
        }
    }
    true
}

/// Whether `s` is greater than `t` among the terms that can be weighed.
/// Terms whose weight is not below the largest number, and all terms where a
/// variable weighs nothing, count as incomparable.
pub open spec fn kbo_greater_bounded(p: Precedence, w: Weight, v: u64, s: TermV, t: TermV) -> bool {
    kbo_fits(w, v, s) && kbo_fits(w, v, t) && kbo_greater(p, w, v, s, t)
}

/// Returns true if s is greater than t according to the KBO, among the terms
/// that can be weighed.
pub fn kbo_gt(precedence: &Precedence, weight: &Weight, var_weight: u64, s: &Term, t: &Term) -> (r:
    bool)
    ensures
        r == kbo_greater_bounded(*precedence, *weight, var_weight, s@, t@),
    decreases s,
{
    if var_weight == 0 {
        return false;
    }
    let ws = s.symbol_count(weight.symbol, var_weight);
    let wt = t.symbol_count(weight.symbol, var_weight);
    if ws == u64::MAX || wt == u64::MAX || ws < wt {
        return false;
    }
    proof {
        assert forall|x: int| s@.count(x) < u64::MAX by {
            lemma_count_le_weight(s@, x, weight.symbol as nat, var_weight as nat);
        }
    }
    if !vars_dominate_in(s, t, t) {
        proof {
            let x = choose|x: int| t@.occurs(x) && !(t@.count(x) <= s@.count(x));
            assert(!vars_dominate(s@, t@));
        }
        return false;
    }
    proof {
        assert forall|x: int| #[trigger] t@.count(x) <= s@.count(x) by {
            lemma_count_occurs(t@, x);
        }
    }
    if ws > wt {
        return true;
    }
    if s.is_variable() || t.is_variable() {
        return false;
    }
    if precedence.gt(s, t) {
        return true;
    }
    if !(s.id == t.id && s.predicate == t.predicate && s.args.len() == t.args.len()) {
        proof {
            assert(s@.args().len() == s.args.len());
            assert(t@.args().len() == t.args.len());
        }
        return false;
    }
    let n = s.args.len();
    let mut i: usize = 0;
    while i < n
        invariant
            0 <= i <= n,
            s.id >= 0,
            t.id >= 0,
            n == s.args.len(),
            n == t.args.len(),
            vars_dominate(s@, t@),
            term_weight(*weight, var_weight, s@) == term_weight(*weight, var_weight, t@),
            term_weight(*weight, var_weight, s@) < u64::MAX,
            var_weight >= 1,
            !precedence.greater(s@, t@),
            s@.same_head(t@),
            forall|j: int| 0 <= j < i ==> s.args[j]@ == t.args[j]@,
        decreases n - i,
    {
        let ghost k = i as int;
        proof {
            assert(s@.args()[k] == s.args[k]@ && t@.args()[k] == t.args[k]@);
            lemma_weighted_sum_index(s@.args(), weight.symbol as nat, var_weight as nat, k);
            lemma_weighted_sum_index(t@.args(), weight.symbol as nat, var_weight as nat, k);
        }
        if kbo_gt(precedence, weight, var_weight, &s.args[i], &t.args[i]) {
            proof {
                assert forall|j: int| 0 <= j < k implies (#[trigger] s@.args()[j]) == t@.args()[j] by {
                    assert(s.args[j]@ == t.args[j]@);
                }
            }
            return true;
        } else if !s.args[i].equals(&t.args[i]) {
            proof {
                {
                    assert forall|k2: int|
                        0 <= k2 < s@.args().len() && k2 < t@.args().len() && kbo_greater(
                            *precedence,
                            *weight,
                            var_weight,
                            #[trigger] s@.args()[k2],
                            t@.args()[k2],
                        ) implies !(forall|j: int|
                        0 <= j < k2 ==> (#[trigger] s@.args()[j]) == t@.args()[j]) by {
                        if k2 < k {
                            assert(s.args[k2]@ == t.args[k2]@);
                            lemma_kbo_irreflexive(*precedence, *weight, var_weight, s@.args()[k2]);
                        } else if k2 > k {
                            assert(s@.args()[k] != t@.args()[k]);
                        }
                    }
                }
            }
            return false;
        }
        i += 1;
    }
    proof {
        assert forall|k: int|
            0 <= k < s@.args().len() && k < t@.args().len() implies !kbo_greater(
            *precedence,
            *weight,
            var_weight,
            #[trigger] s@.args()[k],
            t@.args()[k],
        ) by {
            assert(s.args[k]@ == t.args[k]@);
            lemma_kbo_irreflexive(*precedence, *weight, var_weight, s@.args()[k]);
        }
    }
    false
}

/// Returns true if s is greater than or equal to t according to the KBO,
/// among the terms that can be weighed.
pub fn kbo_ge(precedence: &Precedence, weight: &Weight, var_weight: u64, s: &Term, t: &Term) -> (r:
    bool)
    ensures
        r == (s@ == t@ || kbo_greater_bounded(*precedence, *weight, var_weight, s@, t@)),
{
    s.equals(t) || kbo_gt(precedence, weight, var_weight, s, t)
}

/// No term is greater than itself.
pub proof fn lemma_kbo_irreflexive(p: Precedence, w: Weight, v: u64, s: TermV)
    ensures
        !kbo_greater(p, w, v, s, s),
    decreases s,
{
    if kbo_greater(p, w, v, s, s) {
        let ss = s.args();
        let k = choose|k: int|
            0 <= k < ss.len() && k < s.args().len() && kbo_greater(
                p,
                w,
                v,
                #[trigger] ss[k],
                s.args()[k],
            ) && forall|j: int| 0 <= j < k ==> (#[trigger] ss[j]) == s.args()[j];
        lemma_kbo_irreflexive(p, w, v, ss[k]);
    }
}

/// The ordering is transitive.
pub proof fn lemma_kbo_transitive(p: Precedence, w: Weight, v: u64, s: TermV, t: TermV, u: TermV)
    requires
        kbo_greater(p, w, v, s, t),
        kbo_greater(p, w, v, t, u),
    ensures
        kbo_greater(p, w, v, s, u),
    decreases s,
{
    assert forall|x: int| #[trigger] u.count(x) <= s.count(x) by {
        assert(u.count(x) <= t.count(x));
        assert(t.count(x) <= s.count(x));
    }
    if term_weight(w, v, s) == term_weight(w, v, t) && term_weight(w, v, t) == term_weight(w, v, u) {
        let ss = s.args();
        let ts = t.args();
        let us = u.args();
        if p.greater(s, t) {
            if p.greater(t, u) {
                crate::ordering::precedence::lemma_precedence_transitive(p, s, t, u);
            } else {
                crate::ordering::precedence::lemma_precedence_head(p, s, s, t, u);
            }
        } else {
            if p.greater(t, u) {
                crate::ordering::precedence::lemma_precedence_head(p, t, s, u, u);
            } else {
                let k1 = choose|k: int|
                    0 <= k < ss.len() && k < ts.len() && kbo_greater(p, w, v, #[trigger] ss[k], ts[k])
                        && forall|j: int| 0 <= j < k ==> (#[trigger] ss[j]) == ts[j];
                let k2 = choose|k: int|
                    0 <= k < ts.len() && k < us.len() && kbo_greater(p, w, v, #[trigger] ts[k], us[k])
                        && forall|j: int| 0 <= j < k ==> (#[trigger] ts[j]) == us[j];
                let k = if k1 < k2 {
                    k1
                } else {
                    k2
                };
                if k1 < k2 {
                    assert(ts[k1] == us[k1]);
                } else if k2 < k1 {
                    assert(ss[k2] == ts[k2]);
                } else {
                    lemma_kbo_transitive(p, w, v, ss[k], ts[k], us[k]);
                }
                assert(kbo_greater(p, w, v, ss[k], us[k]));
                assert forall|j: int| 0 <= j < k implies (#[trigger] ss[j]) == us[j] by {
                    assert(ss[j] == ts[j]);
                    assert(ts[j] == us[j]);
                }
            }
        }
    }
}

/// Replacing one term of a sequence changes the number of occurrences of a
/// variable by the difference between the two terms.
pub proof fn lemma_count_sum_update(ts: Seq<TermV>, k: int, t: TermV, x: int)
    requires
        0 <= k < ts.len(),
    ensures
        count_sum(ts.update(k, t), x) + ts[k].count(x) == count_sum(ts, x) + t.count(x),
    decreases ts.len(),
{
    let us = ts.update(k, t);
    if k == ts.len() - 1 {
        assert(us.drop_last() =~= ts.drop_last());
    } else {
        assert(us.drop_last() =~= ts.drop_last().update(k, t));
        lemma_count_sum_update(ts.drop_last(), k, t, x);
    }
}

/// Replacing one term of a sequence changes the weight by the difference
/// between the two terms.
pub proof fn lemma_weighted_sum_update(ts: Seq<TermV>, k: int, t: TermV, f: nat, v: nat)
    requires
        0 <= k < ts.len(),
    ensures
        weighted_sum(ts.update(k, t), f, v) + weighted_size(ts[k], f, v) == weighted_sum(ts, f, v)
            + weighted_size(t, f, v),
    decreases ts.len(),
{
    let us = ts.update(k, t);
    if k == ts.len() - 1 {
        assert(us.drop_last() =~= ts.drop_last());
    } else {
        assert(us.drop_last() =~= ts.drop_last().update(k, t));
        lemma_weighted_sum_update(ts.drop_last(), k, t, f, v);
    }
}

/// The ordering is monotone: replacing an argument by a smaller term gives a
/// smaller term.
pub proof fn lemma_kbo_monotone(p: Precedence, w: Weight, v: u64, f: TermV, k: int, t: TermV)
    requires
        f is Fun,
        0 <= k < f.args().len(),
        kbo_greater(p, w, v, f.args()[k], t),
    ensures
        kbo_greater(p, w, v, f, TermV::Fun(f.id(), f.predicate(), f.args().update(k, t))),
{
    let ss = f.args();
    let g = TermV::Fun(f.id(), f.predicate(), ss.update(k, t));
    let ts = g.args();
    assert forall|x: int| #[trigger] g.count(x) <= f.count(x) by {
        lemma_count_sum_update(ss, k, t, x);
        assert(t.count(x) <= ss[k].count(x));
    }
    lemma_weighted_sum_update(ss, k, t, w.symbol as nat, v as nat);
    if term_weight(w, v, f) == term_weight(w, v, g) {
        assert(f.same_head(g));
        assert(kbo_greater(p, w, v, ss[k], ts[k]));
        assert forall|j: int| 0 <= j < k implies (#[trigger] ss[j]) == ts[j] by {}
    }
}

} // verus!
