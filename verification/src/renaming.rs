//! Standardizing apart: giving a clause variables that no other clause has.
use crate::clause::{apply_clause, clause_occurs, Clause, ClauseV};
use crate::matching::extends;
use crate::substitution::Substitution;
use crate::term::{lemma_occurs_apply, SubstV, Term, TermV};
use vstd::prelude::*;

verus! {

/// Whether `rho` sends its variables to different variables, all from `lo`
/// up to but not including `hi`.
pub open spec fn fresh_renaming(rho: SubstV, lo: int, hi: int) -> bool {
    &&& forall|x: int|
        rho.dom().contains(x) ==> (#[trigger] rho[x]) is Var && lo <= rho[x].id() < hi
    &&& forall|x: int, y: int|
        rho.dom().contains(x) && rho.dom().contains(y) && x != y ==> #[trigger] rho[x]
            != #[trigger] rho[y]
}

/// Whether `d` is `c` with its variables renamed by `rho`, which binds
/// exactly the variables of `c`.
pub open spec fn renamed(c: ClauseV, d: ClauseV, rho: SubstV, lo: int, hi: int) -> bool {
    &&& fresh_renaming(rho, lo, hi)
    &&& forall|x: int| #[trigger] rho.dom().contains(x) <==> clause_occurs(c, x)
    &&& d == apply_clause(c, rho)
}

/// Whether `s` binds as many variables as were taken from `hi` down to `lo`.
pub open spec fn counted(s: SubstV, lo: int, hi: int) -> bool {
    s.dom().finite() && s.dom().len() == hi - lo
}

/// Whether the clause has at least `n` variables.
pub open spec fn has_variables(c: ClauseV, n: int) -> bool {
    exists|vs: Set<int>|
        vs.finite() && vs.len() >= n && forall|x: int| vs.contains(x) ==> #[trigger] clause_occurs(
            c,
            x,
        )
}

/// Binds each variable of `t` that `sigma` does not bind yet to the next
/// unused variable. Yields false where the variables run out: every
/// variable is taken, and a variable of `t` is not bound yet.
fn rename_term(t: &Term, sigma: &mut Substitution, var_cnt: &mut i64, hi: Ghost<int>) -> (ok: bool)
    requires
        *old(var_cnt) <= 0,
        *old(var_cnt) <= hi@,
        fresh_renaming(old(sigma)@, *old(var_cnt) as int, hi@),
        counted(old(sigma)@, *old(var_cnt) as int, hi@),
    ensures
        *final(var_cnt) <= *old(var_cnt),
        counted(final(sigma)@, *final(var_cnt) as int, hi@),
        ok ==> {
            &&& fresh_renaming(final(sigma)@, *final(var_cnt) as int, hi@)
            &&& forall|x: int|
                #![trigger final(sigma)@.dom().contains(x)]
                final(sigma)@.dom().contains(x) <==> old(sigma)@.dom().contains(x) || t@.occurs(x)
            &&& extends(final(sigma)@, old(sigma)@)
        },
        !ok ==> {
            &&& *final(var_cnt) == i64::MIN
            &&& exists|x: int| t@.occurs(x) && !final(sigma)@.dom().contains(x)
            &&& forall|x: int|
                #![trigger final(sigma)@.dom().contains(x)]
                final(sigma)@.dom().contains(x) ==> old(sigma)@.dom().contains(x) || t@.occurs(x)
        },
    decreases t,
{
    if t.id < 0 {
        if !sigma.binds(t.id) {
            if *var_cnt == i64::MIN {
                proof {
                    assert(t@.occurs(t.id as int) && !sigma@.dom().contains(t.id as int));
                }
                return false;
            }
            *var_cnt = *var_cnt - 1;
            let fresh = Term::new_variable(*var_cnt);
            sigma.insert(t.id, fresh);
            proof {
                assert(sigma@.dom() =~= old(sigma)@.dom().insert(t.id as int));
            }
        }
        return true;
    }
    let n = t.args.len();
    let mut i: usize = 0;
    while i < n
        invariant
            0 <= i <= n,
            n == t.args.len(),
            t.id >= 0,
            *var_cnt <= *old(var_cnt),
            *var_cnt <= 0,
            *var_cnt <= hi@,
            fresh_renaming(sigma@, *var_cnt as int, hi@),
            counted(sigma@, *var_cnt as int, hi@),
            forall|x: int|
                #![trigger sigma@.dom().contains(x)]
                sigma@.dom().contains(x) <==> old(sigma)@.dom().contains(x) || exists|j: int|
                    0 <= j < i && (#[trigger] t.args[j])@.occurs(x),
            extends(sigma@, old(sigma)@),
        decreases n - i,
    {
        let ghost before = sigma@;
        if !rename_term(&t.args[i], sigma, var_cnt, hi) {
            proof {
                let x = choose|x: int| t.args[i as int]@.occurs(x) && !sigma@.dom().contains(x);
                assert(t@.args()[i as int] == t.args[i as int]@);
                assert(t@.occurs(x));
                assert forall|y: int|
                    #![trigger sigma@.dom().contains(y)]
                    sigma@.dom().contains(y) implies old(sigma)@.dom().contains(y) || t@.occurs(
                    y,
                ) by {
                    if !before.dom().contains(y) {
                        assert(t.args[i as int]@.occurs(y));
                        assert(t@.occurs(y));
                    } else if !old(sigma)@.dom().contains(y) {
                        let j = choose|j: int| 0 <= j < i && (#[trigger] t.args[j])@.occurs(y);
                        assert(t@.args()[j] == t.args[j]@);
                        assert(t@.occurs(y));
                    }
                }
            }
            return false;
        }
        proof {
            assert forall|x: int|
                #![trigger sigma@.dom().contains(x)]
                sigma@.dom().contains(x) <==> old(sigma)@.dom().contains(x) || exists|j: int|
                    0 <= j < i + 1 && (#[trigger] t.args[j])@.occurs(x) by {
                if sigma@.dom().contains(x) && !old(sigma)@.dom().contains(x) {
                    if before.dom().contains(x) {
                        let j = choose|j: int| 0 <= j < i && (#[trigger] t.args[j])@.occurs(x);
                        assert(0 <= j < i + 1 && t.args[j]@.occurs(x));
                    } else {
                        assert(t.args[i as int]@.occurs(x));
                    }
                }
                if exists|j: int| 0 <= j < i + 1 && (#[trigger] t.args[j])@.occurs(x) {
                    let j = choose|j: int| 0 <= j < i + 1 && (#[trigger] t.args[j])@.occurs(x);
                    if j < i {
                        assert(before.dom().contains(x));
                    }
                }
            }
            assert(extends(sigma@, old(sigma)@)) by {
                assert forall|x: int| old(sigma)@.dom().contains(x) implies sigma@.dom().contains(x)
                    && sigma@[x] == old(sigma)@[x] by {
                    assert(before.dom().contains(x) && before[x] == old(sigma)@[x]);
                }
            }
        }
        i += 1;
    }
    proof {
        assert forall|x: int|
            #![trigger sigma@.dom().contains(x)]
            sigma@.dom().contains(x) <==> old(sigma)@.dom().contains(x) || t@.occurs(x) by {
            if t@.occurs(x) {
                let j = choose|j: int| 0 <= j < t@.args().len() && (#[trigger] t@.args()[j]).occurs(x);
                assert(t.args[j]@.occurs(x));
            }
            if exists|j: int| 0 <= j < n && (#[trigger] t.args[j])@.occurs(x) {
                let j = choose|j: int| 0 <= j < n && (#[trigger] t.args[j])@.occurs(x);
                assert(t@.args()[j].occurs(x));
            }
        }
    }
    true
}

/// Renames the variables of the clause to variables that were never used:
/// those right below `var_cnt`, which is lowered past them. Yields false,
/// and leaves the clause as it is, where the variables run out: the clause
/// has more variables than there are below `var_cnt`, and `var_cnt` is
/// left at the least variable.
pub fn rename_clause(cl: &mut Clause, var_cnt: &mut i64) -> (ok: bool)
    requires
        *old(var_cnt) <= 0,
    ensures
        *final(var_cnt) <= *old(var_cnt),
        final(cl).id == old(cl).id,
        ok ==> exists|rho: SubstV|
            renamed(old(cl)@, final(cl)@, rho, *final(var_cnt) as int, *old(var_cnt) as int)
                && counted(rho, *final(var_cnt) as int, *old(var_cnt) as int),
        !ok ==> final(cl)@ == old(cl)@ && *final(var_cnt) == i64::MIN && has_variables(
            old(cl)@,
            *old(var_cnt) - i64::MIN + 1,
        ),
{
    let ghost hi = *var_cnt as int;
    let mut sigma = Substitution::new();
    let n = cl.literals.len();
    let mut i: usize = 0;
    while i < n
        invariant
            0 <= i <= n,
            n == cl.literals.len(),
            cl@ == old(cl)@,
            cl.id == old(cl).id,
            hi == *old(var_cnt),
            *var_cnt <= *old(var_cnt),
            *var_cnt <= 0,
            fresh_renaming(sigma@, *var_cnt as int, hi),
            counted(sigma@, *var_cnt as int, hi),
            forall|x: int|
                #![trigger sigma@.dom().contains(x)]
                sigma@.dom().contains(x) <==> exists|j: int|
                    0 <= j < i && (#[trigger] cl@[j]).occurs(x),
        decreases n - i,
    {
        let ghost before = sigma@;
        if !rename_term(&cl.literals[i].lhs, &mut sigma, var_cnt, Ghost(hi)) {
            proof {
                let x = choose|x: int| cl@[i as int].lhs.occurs(x) && !sigma@.dom().contains(x);
                assert(cl@[i as int].occurs(x));
                lemma_out_of_variables(cl@, sigma@, x, hi, i as int);
            }
            return false;
        }
        let ghost middle = sigma@;
        if !rename_term(&cl.literals[i].rhs, &mut sigma, var_cnt, Ghost(hi)) {
            proof {
                let x = choose|x: int| cl@[i as int].rhs.occurs(x) && !sigma@.dom().contains(x);
                assert(cl@[i as int].occurs(x));
                assert forall|y: int| sigma@.dom().contains(y) implies exists|j: int|
                    0 <= j <= i && (#[trigger] cl@[j]).occurs(y) by {
                    if before.dom().contains(y) {
                        let j = choose|j: int| 0 <= j < i && (#[trigger] cl@[j]).occurs(y);
                        assert(0 <= j <= i && cl@[j].occurs(y));
                    } else {
                        assert(cl@[i as int].occurs(y));
                    }
                }
                lemma_out_of_variables(cl@, sigma@, x, hi, i as int);
            }
            return false;
        }
        proof {
            assert forall|x: int|
                #![trigger sigma@.dom().contains(x)]
                sigma@.dom().contains(x) <==> exists|j: int|
                    0 <= j < i + 1 && (#[trigger] cl@[j]).occurs(x) by {
                if sigma@.dom().contains(x) {
                    if before.dom().contains(x) {
                        let j = choose|j: int| 0 <= j < i && (#[trigger] cl@[j]).occurs(x);
                        assert(0 <= j < i + 1 && cl@[j].occurs(x));
                    } else {
                        assert(cl@[i as int].occurs(x));
                    }
                }
                if exists|j: int| 0 <= j < i + 1 && (#[trigger] cl@[j]).occurs(x) {
                    let j = choose|j: int| 0 <= j < i + 1 && (#[trigger] cl@[j]).occurs(x);
                    if j < i {
                        assert(before.dom().contains(x));
                        assert(middle.dom().contains(x));
                    } else {
                        assert(middle.dom().contains(x) || cl@[i as int].rhs.occurs(x));
                    }
                }
            }
        }
        i += 1;
    }
    cl.subst(&sigma);
    proof {
        assert(renamed(old(cl)@, cl@, sigma@, *var_cnt as int, hi));
    }
    true
}

/// A clause that was renamed has no more variables than were taken for
/// it: renaming fails only where it cannot be done.
pub proof fn lemma_renamed_count(c: ClauseV, d: ClauseV, rho: SubstV, lo: int, hi: int)
    requires
        renamed(c, d, rho, lo, hi),
        counted(rho, lo, hi),
    ensures
        !has_variables(c, hi - lo + 1),
{
    assert forall|vs: Set<int>|
        vs.finite() && (forall|x: int| vs.contains(x) ==> #[trigger] clause_occurs(c, x))
            implies vs.len() <= hi - lo by {
        assert forall|x: int| vs.contains(x) implies rho.dom().contains(x) by {
            assert(clause_occurs(c, x));
        }
        assert(vs.subset_of(rho.dom()));
        vstd::set_lib::lemma_len_subset(vs, rho.dom());
    }
}

/// Whether the clause has more variables than can be renamed twice with
/// the variables below `var_cnt`.
pub open spec fn short_of_variables(var_cnt: int, c: ClauseV) -> bool {
    exists|n: int| #[trigger] has_variables(c, n) && 2 * n > var_cnt - i64::MIN
}

/// A clause whose renamed copy has more variables than are left has more
/// variables than can be renamed twice.
pub proof fn lemma_renamed_short(c: ClauseV, d: ClauseV, rho: SubstV, lo: int, hi: int)
    requires
        renamed(c, d, rho, lo, hi),
        counted(rho, lo, hi),
        has_variables(d, lo - i64::MIN + 1),
    ensures
        short_of_variables(hi, c),
{
    let n = hi - lo;
    let f = |x: int| rho[x].id();
    let image = rho.dom().map(f);
    vstd::set_lib::lemma_map_size_bound(rho.dom(), image, f);
    let vs = choose|vs: Set<int>|
        vs.finite() && vs.len() >= lo - i64::MIN + 1 && forall|y: int|
            vs.contains(y) ==> #[trigger] clause_occurs(d, y);
    assert forall|y: int| vs.contains(y) implies image.contains(y) by {
        assert(clause_occurs(d, y));
        let i = choose|i: int| 0 <= i < d.len() && (#[trigger] d[i]).occurs(y);
        assert(d[i] == c[i].apply(rho));
        let t = if c[i].lhs.apply(rho).occurs(y) {
            c[i].lhs
        } else {
            c[i].rhs
        };
        assert(t.apply(rho).occurs(y));
        lemma_occurs_apply(t, rho, y);
        let x = choose|x: int| t.occurs(x) && (#[trigger] TermV::Var(x).apply(rho)).occurs(y);
        assert(c[i].occurs(x));
        assert(clause_occurs(c, x));
        assert(rho.dom().contains(x));
        assert(rho[x] is Var);
        assert(f(x) == y);
    }
    assert(vs.subset_of(image));
    vstd::set_lib::lemma_len_subset(vs, image);
    assert(has_variables(c, n)) by {
        assert forall|x: int| rho.dom().contains(x) implies #[trigger] clause_occurs(c, x) by {}
    }
}

/// A clause has more variables than were taken where every variable that
/// a substitution binds occurs in it and one more does.
proof fn lemma_out_of_variables(c: ClauseV, s: SubstV, x: int, hi: int, i: int)
    requires
        counted(s, i64::MIN as int, hi),
        0 <= i < c.len(),
        c[i].occurs(x),
        !s.dom().contains(x),
        forall|y: int|
            s.dom().contains(y) ==> exists|j: int| 0 <= j <= i && (#[trigger] c[j]).occurs(y),
    ensures
        has_variables(c, hi - i64::MIN + 1),
{
    let vs = s.dom().insert(x);
    assert forall|y: int| vs.contains(y) implies #[trigger] clause_occurs(c, y) by {
        if y == x {
            assert(c[i].occurs(y));
        } else {
            let j = choose|j: int| 0 <= j <= i && (#[trigger] c[j]).occurs(y);
            assert(c[j].occurs(y));
        }
    }
    assert(vs.finite() && vs.len() == hi - i64::MIN + 1);
}

} // verus!
