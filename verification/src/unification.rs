//! Robinson unification with occurs check.
use crate::literal::{Literal, LiteralV};
use crate::substitution::Substitution;
use crate::term::{compose, lemma_apply_agree, lemma_apply_compose, lemma_apply_fixed, lemma_occurs_apply, lemma_size_occurs, size_sum, SubstV, Term, TermV};
use vstd::prelude::*;

verus! {

/// Why no substitution was returned.
#[derive(Debug, PartialEq, Eq, Clone, Copy)]
pub enum UnificationError {
    /// Two symbols clash, or a variable would have to contain itself.
    NotUnifiable,
}

/// Whether `th` makes the two terms equal.
pub open spec fn unifier(th: SubstV, a: TermV, b: TermV) -> bool {
    a.apply(th) == b.apply(th)
}

/// Whether `th` makes the two sides of every equation equal.
pub open spec fn unifier_of_all(th: SubstV, eqs: Seq<(TermV, TermV)>) -> bool {
    forall|i: int| 0 <= i < eqs.len() ==> unifier(th, (#[trigger] eqs[i]).0, eqs[i].1)
}

/// Whether `th` is an instance of `s`: applying `s` first changes nothing of
/// what `th` does, so that `th` is `s` followed by `th`.
pub open spec fn refines(th: SubstV, s: SubstV) -> bool {
    forall|u: TermV| #[trigger] u.apply(s).apply(th) == u.apply(th)
}

/// Whether no variable of the domain occurs in an image.
pub open spec fn idempotent(s: SubstV) -> bool {
    forall|x: int, y: int|
        s.dom().contains(x) && s.dom().contains(y) ==> !(#[trigger] s[x].occurs(y))
}

/// The views of a sequence of equations.
pub open spec fn pairs_view(v: Seq<(Term, Term)>) -> Seq<(TermV, TermV)> {
    Seq::new(v.len(), |i: int| (v[i].0@, v[i].1@))
}

/// The views of a sequence of bindings.
pub open spec fn binds_view(v: Seq<(i64, Term)>) -> Seq<(int, TermV)> {
    Seq::new(v.len(), |i: int| (v[i].0 as int, v[i].1@))
}

/// Whether `th` gives each bound variable and its image the same instance.
pub open spec fn solves(th: SubstV, bs: Seq<(int, TermV)>) -> bool {
    forall|i: int| 0 <= i < bs.len() ==> unifier(th, TermV::Var((#[trigger] bs[i]).0), bs[i].1)
}

/// Whether the bound variables are distinct and occur neither in an image nor
/// in an equation that is still to be solved.
pub open spec fn solved_form(bs: Seq<(int, TermV)>, stack: Seq<(TermV, TermV)>) -> bool {
    &&& forall|i: int, j: int|
        0 <= i < bs.len() && 0 <= j < bs.len() && i != j ==> (#[trigger] bs[i]).0 != (
        #[trigger] bs[j]).0
    &&& forall|i: int, j: int|
        0 <= i < bs.len() && 0 <= j < bs.len() ==> !(#[trigger] bs[j]).1.occurs((#[trigger] bs[i]).0)
    &&& forall|i: int, k: int|
        0 <= i < bs.len() && 0 <= k < stack.len() ==> !(#[trigger] stack[k]).0.occurs(
            (#[trigger] bs[i]).0,
        ) && !stack[k].1.occurs(bs[i].0)
}

/// Whether the substitution holds exactly the given bindings.
pub open spec fn represents(s: SubstV, bs: Seq<(int, TermV)>) -> bool {
    &&& forall|x: int|
        s.dom().contains(x) <==> exists|i: int| 0 <= i < bs.len() && (#[trigger] bs[i]).0 == x
    &&& forall|i: int| 0 <= i < bs.len() ==> s[(#[trigger] bs[i]).0] == bs[i].1
}

/// The sum of the sizes of both sides of all equations.
pub open spec fn stack_size(stack: Seq<(TermV, TermV)>) -> nat
    decreases stack.len(),
{
    if stack.len() == 0 {
        0
    } else {
        stack.last().0.size() + stack.last().1.size() + stack_size(stack.drop_last())
    }
}

/// Whether every variable of the equations is in the set.
pub open spec fn covers(vs: Set<int>, stack: Seq<(TermV, TermV)>) -> bool {
    forall|k: int, y: int|
        0 <= k < stack.len() && ((#[trigger] stack[k]).0.occurs(y) || stack[k].1.occurs(y))
            ==> #[trigger] vs.contains(y)
}

/// The equations between the first `upto` arguments at the same place.
pub open spec fn zip(a: Seq<TermV>, b: Seq<TermV>, upto: int) -> Seq<(TermV, TermV)> {
    Seq::new(upto as nat, |i: int| (a[i], b[i]))
}

/// The equations between the arguments at the same place, last place first.
pub open spec fn zip_rev(a: Seq<TermV>, b: Seq<TermV>, from: int) -> Seq<(TermV, TermV)> {
    Seq::new((a.len() - from) as nat, |i: int| (a[a.len() - 1 - i], b[a.len() - 1 - i]))
}

/// A finite set that holds every variable of a term.
pub proof fn lemma_vars_finite(t: TermV) -> (vs: Set<int>)
    ensures
        vs.finite(),
        forall|x: int| t.occurs(x) ==> vs.contains(x),
    decreases t, 1int,
{
    match t {
        TermV::Var(x) => Set::empty().insert(x),
        TermV::Fun(_, _, args) => lemma_vars_finite_seq(t, args.len() as int),
    }
}

/// A finite set that holds every variable of the first `n` arguments of a term.
proof fn lemma_vars_finite_seq(t: TermV, n: int) -> (vs: Set<int>)
    requires
        t is Fun,
        0 <= n <= t.args().len(),
    ensures
        vs.finite(),
        forall|i: int, x: int| 0 <= i < n && (#[trigger] t.args()[i]).occurs(x) ==> #[trigger] vs.contains(x),
    decreases t, 0int, n,
{
    if n == 0 {
        Set::empty()
    } else {
        let a = lemma_vars_finite_seq(t, n - 1);
        let b = lemma_vars_finite(t.args()[n - 1]);
        a.union(b)
    }
}

/// Replacing a variable by a term leaves the other variables of the term and
/// brings in those of the replacement.
pub proof fn lemma_occurs_replace(u: TermV, x: int, t: TermV, y: int)
    ensures
        u.replace(x, t).occurs(y) <==> (u.occurs(y) && y != x) || (u.occurs(x) && t.occurs(y)),
{
    let s = Map::<int, TermV>::empty().insert(x, t);
    lemma_occurs_apply(u, s, y);
    if u.replace(x, t).occurs(y) {
        let z = choose|z: int| u.occurs(z) && (#[trigger] TermV::Var(z).apply(s)).occurs(y);
        if z == x {
        } else {
            assert(TermV::Var(z).apply(s) == TermV::Var(z));
        }
    }
    if u.occurs(y) && y != x {
        assert(TermV::Var(y).apply(s).occurs(y));
    }
    if u.occurs(x) && t.occurs(y) {
        assert(TermV::Var(x).apply(s).occurs(y));
    }
}

/// Where `th` gives `x` and `t` the same instance, replacing `x` by `t` in a
/// term does not change the term's instance under `th`.
pub proof fn lemma_replace_unified(u: TermV, x: int, t: TermV, th: SubstV)
    requires
        unifier(th, TermV::Var(x), t),
    ensures
        u.replace(x, t).apply(th) == u.apply(th),
{
    let s = Map::<int, TermV>::empty().insert(x, t);
    lemma_apply_compose(u, s, th);
    assert forall|z: int| u.occurs(z) implies TermV::Var(z).apply(compose(s, th)) == TermV::Var(
        z,
    ).apply(th) by {}
    lemma_apply_agree(u, compose(s, th), th);
}

/// An instance of `s` that solves the bindings of `s` treats every term as
/// its image under `s`.
pub proof fn lemma_solves_refines(th: SubstV, s: SubstV, bs: Seq<(int, TermV)>)
    requires
        represents(s, bs),
        solves(th, bs),
    ensures
        refines(th, s),
{
    assert forall|u: TermV| #[trigger] u.apply(s).apply(th) == u.apply(th) by {
        lemma_apply_compose(u, s, th);
        assert forall|z: int| u.occurs(z) implies TermV::Var(z).apply(compose(s, th))
            == TermV::Var(z).apply(th) by {
            if s.dom().contains(z) {
                let i = choose|i: int| 0 <= i < bs.len() && (#[trigger] bs[i]).0 == z;
                assert(unifier(th, TermV::Var(bs[i].0), bs[i].1));
            }
        }
        lemma_apply_agree(u, compose(s, th), th);
    }
}

/// A substitution in solved form solves its own bindings.
pub proof fn lemma_solved_form_solves(s: SubstV, bs: Seq<(int, TermV)>)
    requires
        represents(s, bs),
        solved_form(bs, Seq::empty()),
    ensures
        solves(s, bs),
        idempotent(s),
{
    assert forall|i: int| 0 <= i < bs.len() implies unifier(
        s,
        TermV::Var((#[trigger] bs[i]).0),
        bs[i].1,
    ) by {
        assert(s.dom().contains(bs[i].0));
        assert forall|x: int| bs[i].1.occurs(x) implies !s.dom().contains(x) by {
            if s.dom().contains(x) {
                let j = choose|j: int| 0 <= j < bs.len() && (#[trigger] bs[j]).0 == x;
                assert(!bs[i].1.occurs(bs[j].0));
            }
        }
        lemma_apply_fixed(bs[i].1, s);
    }
    assert forall|x: int, y: int| s.dom().contains(x) && s.dom().contains(y) implies !(
    #[trigger] s[x].occurs(y)) by {
        let i = choose|i: int| 0 <= i < bs.len() && (#[trigger] bs[i]).0 == x;
        let j = choose|j: int| 0 <= j < bs.len() && (#[trigger] bs[j]).0 == y;
        assert(!bs[i].1.occurs(bs[j].0));
    }
}

/// Two applications of the same symbol to equally many arguments are unified
/// exactly by the unifiers of their arguments.
pub proof fn lemma_decompose(th: SubstV, a: TermV, b: TermV)
    requires
        a.same_head(b),
    ensures
        unifier(th, a, b) <==> unifier_of_all(th, zip(a.args(), b.args(), a.args().len() as int)),
{
    let aa = a.args();
    let ba = b.args();
    let n = aa.len() as int;
    let z = zip(aa, ba, n);
    if unifier(th, a, b) {
        assert forall|i: int| 0 <= i < z.len() implies unifier(th, (#[trigger] z[i]).0, z[i].1) by {
            assert(a.apply(th).args()[i] == aa[i].apply(th));
            assert(b.apply(th).args()[i] == ba[i].apply(th));
        }
    }
    if unifier_of_all(th, z) {
        assert forall|k: int| 0 <= k < n implies aa[k].apply(th) == ba[k].apply(th) by {
            assert(unifier(th, z[k].0, z[k].1));
        }
        assert(a.apply(th).args() =~= b.apply(th).args());
    }
}

/// Terms with different head symbols have no unifier.
pub proof fn lemma_clash(th: SubstV, a: TermV, b: TermV)
    requires
        a is Fun,
        b is Fun,
        !a.same_head(b),
    ensures
        !unifier(th, a, b),
{
    assert(a.apply(th).args().len() == a.args().len());
    assert(b.apply(th).args().len() == b.args().len());
}

/// A variable has no unifier with an application in which it occurs.
pub proof fn lemma_occurs_check(th: SubstV, x: int, t: TermV)
    requires
        t is Fun,
        t.occurs(x),
    ensures
        !unifier(th, TermV::Var(x), t),
{
    lemma_size_occurs(t, x, th);
}

/// The size of the equations grows by the sizes of the sides of one more.
proof fn lemma_stack_size_push(stack: Seq<(TermV, TermV)>, e: (TermV, TermV))
    ensures
        stack_size(stack.push(e)) == stack_size(stack) + e.0.size() + e.1.size(),
{
    assert(stack.push(e).drop_last() =~= stack);
}

/// The unifiers of a sequence with one more equation are those of both.
proof fn lemma_unifier_push(th: SubstV, stack: Seq<(TermV, TermV)>, e: (TermV, TermV))
    ensures
        unifier_of_all(th, stack.push(e)) <==> unifier_of_all(th, stack) && unifier(th, e.0, e.1),
{
    let p = stack.push(e);
    if unifier_of_all(th, p) {
        assert(p[stack.len() as int] == e);
        assert forall|i: int| 0 <= i < stack.len() implies unifier(
            th,
            (#[trigger] stack[i]).0,
            stack[i].1,
        ) by {
            assert(p[i] == stack[i]);
        }
    }
}

/// The sum of the sizes of the first `k` terms and the next one.
proof fn lemma_size_sum_take(ts: Seq<TermV>, k: int)
    requires
        0 <= k < ts.len(),
    ensures
        size_sum(ts.take(k + 1)) == size_sum(ts.take(k)) + ts[k].size(),
{
    assert(ts.take(k + 1).drop_last() =~= ts.take(k));
}

/// Solves a set of equations: the bindings of a most general unifier in
/// solved form, or an error where no unifier exists.
pub fn unify(eqs: Vec<(Term, Term)>) -> (r: Result<Vec<(i64, Term)>, UnificationError>)
    ensures
        match r {
            Ok(bs) => {
                &&& solved_form(binds_view(bs@), Seq::empty())
                &&& forall|i: int| 0 <= i < bs.len() ==> (#[trigger] bs[i]).0 < 0
                &&& forall|th: SubstV| #[trigger]
                    unifier_of_all(th, pairs_view(eqs@)) <==> solves(th, binds_view(bs@))
            },
            Err(_) => forall|th: SubstV| !#[trigger] unifier_of_all(th, pairs_view(eqs@)),
        },
{
    let ghost e0 = pairs_view(eqs@);
    let mut stack = eqs;
    let mut bs: Vec<(i64, Term)> = Vec::new();
    let ghost mut vs: Set<int> = Set::empty();
    proof {
        vs = lemma_vars_cover(e0, e0.len() as int);
        assert(covers(vs, e0)) by {
            assert forall|k: int, y: int|
                0 <= k < e0.len() && ((#[trigger] e0[k]).0.occurs(y) || e0[k].1.occurs(y)) implies #[trigger] vs.contains(
                y,
            ) by {}
        }
    }
    while stack.len() > 0
        invariant
            e0 == pairs_view(eqs@),
            vs.finite(),
            covers(vs, pairs_view(stack@)),
            solved_form(binds_view(bs@), pairs_view(stack@)),
            forall|i: int| 0 <= i < bs.len() ==> (#[trigger] bs[i]).0 < 0,
            forall|th: SubstV| #[trigger]
                unifier_of_all(th, e0) <==> unifier_of_all(th, pairs_view(stack@)) && solves(
                    th,
                    binds_view(bs@),
                ),
        decreases vs.len(), stack_size(pairs_view(stack@)),
    {
        let ghost old_stack = pairs_view(stack@);
        let ghost old_bs = binds_view(bs@);
        let (a, b) = stack.pop().unwrap();
        let ghost rest = pairs_view(stack@);
        proof {
            assert(rest =~= old_stack.drop_last());
            assert(old_stack =~= rest.push((a@, b@)));
            lemma_stack_size_push(rest, (a@, b@));
            assert forall|th: SubstV| #[trigger]
                unifier_of_all(th, old_stack) <==> unifier_of_all(th, rest) && unifier(
                    th,
                    a@,
                    b@,
                ) by {
                lemma_unifier_push(th, rest, (a@, b@));
            }
            assert(old_stack[rest.len() as int] == (a@, b@));
            assert(covers(vs, rest)) by {
                assert forall|k: int, y: int|
                    0 <= k < rest.len() && ((#[trigger] rest[k]).0.occurs(y) || rest[k].1.occurs(
                        y,
                    )) implies #[trigger] vs.contains(y) by {
                    assert(rest[k] == old_stack[k]);
                }
            }
            assert(solved_form(old_bs, rest)) by {
                assert forall|i: int, k: int|
                    0 <= i < old_bs.len() && 0 <= k < rest.len() implies !(#[trigger] rest[k]).0.occurs(
                    (#[trigger] old_bs[i]).0,
                ) && !rest[k].1.occurs(old_bs[i].0) by {
                    assert(rest[k] == old_stack[k]);
                }
            }
        }
        if a.equals(&b) {
            continue ;
        }
        if a.is_function() && b.is_function() {
            if a.id != b.id || a.predicate != b.predicate || a.args.len() != b.args.len() {
                proof {
                    assert(a@.args().len() == a.args.len());
                    assert(b@.args().len() == b.args.len());
                    assert forall|th: SubstV| !#[trigger] unifier_of_all(th, e0) by {
                        lemma_clash(th, a@, b@);
                    }
                }
                return Err(UnificationError::NotUnifiable);
            }
            let ghost av = a@;
            let ghost bv = b@;
            let ghost aargs = a@.args();
            let ghost bargs = b@.args();
            let Term { id: _, predicate: _, args: mut aa } = a;
            let Term { id: _, predicate: _, args: mut ba } = b;
            let mut tmp: Vec<(Term, Term)> = Vec::new();
            proof {
                assert(aargs.len() == aa.len());
                assert(bargs.len() == ba.len());
                assert(crate::term::views(aa@) =~= aargs);
                assert(crate::term::views(ba@) =~= bargs);
                assert(pairs_view(tmp@) =~= zip_rev(aargs, bargs, aa.len() as int));
                assert(aargs.take(aa.len() as int) =~= aargs);
                assert(bargs.take(aa.len() as int) =~= bargs);
            }
            while aa.len() > 0
                invariant
                    aa.len() == ba.len(),
                    aa.len() <= aargs.len(),
                    aargs.len() == bargs.len(),
                    crate::term::views(aa@) =~= aargs.take(aa.len() as int),
                    crate::term::views(ba@) =~= bargs.take(aa.len() as int),
                    pairs_view(tmp@) =~= zip_rev(aargs, bargs, aa.len() as int),
                decreases aa.len(),
            {
                let ghost k = aa.len() - 1;
                let ghost before = pairs_view(tmp@);
                let ghost aa_before = aa@;
                let ghost ba_before = ba@;
                let x = aa.pop().unwrap();
                let y = ba.pop().unwrap();
                proof {
                    assert(x@ == crate::term::views(aa_before)[k]);
                    assert(x@ == aargs.take(k + 1)[k]);
                    assert(y@ == crate::term::views(ba_before)[k]);
                    assert(y@ == bargs.take(k + 1)[k]);
                }
                tmp.push((x, y));
                proof {
                    assert(pairs_view(tmp@) =~= before.push((aargs[k], bargs[k])));
                    assert(pairs_view(tmp@) =~= zip_rev(aargs, bargs, k));
                    assert(crate::term::views(aa@) =~= aargs.take(k));
                    assert(crate::term::views(ba@) =~= bargs.take(k));
                }
            }
            let ghost n = aargs.len() as int;
            proof {
                assert(pairs_view(stack@) =~= rest + zip(aargs, bargs, 0));
                assert(aargs.take(0) =~= Seq::<TermV>::empty());
                assert(bargs.take(0) =~= Seq::<TermV>::empty());
            }
            while tmp.len() > 0
                invariant
                    n == aargs.len(),
                    n == bargs.len(),
                    tmp.len() <= n,
                    pairs_view(tmp@) =~= zip_rev(aargs, bargs, 0).take(tmp.len() as int),
                    pairs_view(stack@) =~= rest + zip(aargs, bargs, n - tmp.len()),
                    stack_size(pairs_view(stack@)) == stack_size(rest) + size_sum(
                        aargs.take(n - tmp.len()),
                    ) + size_sum(bargs.take(n - tmp.len())),
                decreases tmp.len(),
            {
                let ghost k = n - tmp.len();
                let ghost before = pairs_view(stack@);
                let ghost tmp_before = pairs_view(tmp@);
                let (x, y) = tmp.pop().unwrap();
                proof {
                    assert((x@, y@) == tmp_before[tmp_before.len() - 1]);
                    assert(x@ == aargs[k]);
                    assert(y@ == bargs[k]);
                    lemma_size_sum_take(aargs, k);
                    lemma_size_sum_take(bargs, k);
                    lemma_stack_size_push(before, (x@, y@));
                }
                stack.push((x, y));
                proof {
                    assert(pairs_view(stack@) =~= before.push((aargs[k], bargs[k])));
                    assert(pairs_view(stack@) =~= rest + zip(aargs, bargs, k + 1));
                    assert(pairs_view(tmp@) =~= zip_rev(aargs, bargs, 0).take(tmp.len() as int));
                }
            }
            proof {
                let z = zip(aargs, bargs, n);
                let new_stack = pairs_view(stack@);
                assert(new_stack =~= rest + z);
                assert(aargs.take(n) =~= aargs);
                assert(bargs.take(n) =~= bargs);
                assert(av.same_head(bv));
                assert forall|th: SubstV| #[trigger]
                    unifier_of_all(th, e0) <==> unifier_of_all(th, new_stack) && solves(
                        th,
                        old_bs,
                    ) by {
                    lemma_decompose(th, av, bv);
                    lemma_unifier_concat(th, rest, z);
                }
                assert(covers(vs, new_stack)) by {
                    assert forall|k: int, y: int|
                        0 <= k < new_stack.len() && ((#[trigger] new_stack[k]).0.occurs(y)
                            || new_stack[k].1.occurs(y)) implies #[trigger] vs.contains(y) by {
                        if k < rest.len() {
                            assert(new_stack[k] == rest[k]);
                        } else {
                            let j = k - rest.len();
                            assert(new_stack[k] == (aargs[j], bargs[j]));
                            assert(aargs[j].occurs(y) ==> av.occurs(y));
                            assert(bargs[j].occurs(y) ==> bv.occurs(y));
                        }
                    }
                }
                assert(solved_form(old_bs, new_stack)) by {
                    assert forall|i: int, k: int|
                        0 <= i < old_bs.len() && 0 <= k < new_stack.len() implies !(
                    #[trigger] new_stack[k]).0.occurs((#[trigger] old_bs[i]).0)
                        && !new_stack[k].1.occurs(old_bs[i].0) by {
                        if k < rest.len() {
                            assert(new_stack[k] == rest[k]);
                        } else {
                            let j = k - rest.len();
                            assert(new_stack[k] == (aargs[j], bargs[j]));
                            assert(aargs[j].occurs(old_bs[i].0) ==> av.occurs(old_bs[i].0));
                            assert(bargs[j].occurs(old_bs[i].0) ==> bv.occurs(old_bs[i].0));
                            assert(!old_stack[rest.len() as int].0.occurs(old_bs[i].0));
                            assert(!old_stack[rest.len() as int].1.occurs(old_bs[i].0));
                        }
                    }
                }
            }
            continue ;
        }
        let (x, t) = if a.is_variable() {
            (a.id, b)
        } else {
            (b.id, a)
        };
        let ghost tv = t@;
        proof {
            assert(unifier_sym(a@, b@, x as int, tv));
            assert(tv != TermV::Var(x as int));
        }
        if t.occurs(x) {
            proof {
                assert forall|th: SubstV| !#[trigger] unifier_of_all(th, e0) by {
                    lemma_occurs_check(th, x as int, tv);
                }
            }
            return Err(UnificationError::NotUnifiable);
        }
        let mut new_stack: Vec<(Term, Term)> = Vec::new();
        let mut i: usize = 0;
        while i < stack.len()
            invariant
                0 <= i <= stack.len(),
                new_stack.len() == i,
                forall|j: int|
                    0 <= j < i ==> (#[trigger] new_stack[j]).0@ == stack[j].0@.replace(x as int, t@)
                        && new_stack[j].1@ == stack[j].1@.replace(x as int, t@),
            decreases stack.len() - i,
        {
            let l = stack[i].0.replace(x, &t);
            let r = stack[i].1.replace(x, &t);
            new_stack.push((l, r));
            i += 1;
        }
        let mut new_bs: Vec<(i64, Term)> = Vec::new();
        let mut i: usize = 0;
        while i < bs.len()
            invariant
                0 <= i <= bs.len(),
                new_bs.len() == i,
                forall|j: int|
                    0 <= j < i ==> (#[trigger] new_bs[j]).0 == bs[j].0 && new_bs[j].1@
                        == bs[j].1@.replace(x as int, t@),
            decreases bs.len() - i,
        {
            let v = bs[i].1.replace(x, &t);
            new_bs.push((bs[i].0, v));
            i += 1;
        }
        new_bs.push((x, t));
        proof {
            let ns = pairs_view(new_stack@);
            let nb = binds_view(new_bs@);
            let xi = x as int;
            assert(ns.len() == rest.len());
            assert(nb.len() == old_bs.len() + 1);
            assert(nb[old_bs.len() as int] == (xi, tv));
            assert forall|k: int| 0 <= k < rest.len() implies (#[trigger] ns[k]).0 == rest[k].0.replace(
                xi,
                tv,
            ) && ns[k].1 == rest[k].1.replace(xi, tv) by {
                assert(new_stack[k].0@ == stack[k].0@.replace(xi, tv));
            }
            assert forall|j: int| 0 <= j < old_bs.len() implies (#[trigger] nb[j]).0 == old_bs[j].0
                && nb[j].1 == old_bs[j].1.replace(xi, tv) by {
                assert(new_bs[j].0 == bs[j].0);
            }
            assert(old_stack[rest.len() as int] == (a@, b@));
            assert(vs.contains(xi)) by {
                assert(a@.occurs(xi) || b@.occurs(xi));
            }
            assert forall|i: int| 0 <= i < old_bs.len() implies !tv.occurs(
                (#[trigger] old_bs[i]).0,
            ) && old_bs[i].0 != xi by {
                assert(!old_stack[rest.len() as int].0.occurs(old_bs[i].0));
                assert(!old_stack[rest.len() as int].1.occurs(old_bs[i].0));
            }
            assert forall|th: SubstV| #[trigger]
                unifier_of_all(th, e0) <==> unifier_of_all(th, ns) && solves(th, nb) by {
                lemma_eliminate(th, rest, old_bs, ns, nb, xi, tv);
            }
            assert(covers(vs.remove(xi), ns)) by {
                assert forall|k: int, y: int|
                    0 <= k < ns.len() && ((#[trigger] ns[k]).0.occurs(y) || ns[k].1.occurs(
                        y,
                    )) implies #[trigger] vs.remove(xi).contains(y) by {
                    lemma_occurs_replace(rest[k].0, xi, tv, y);
                    lemma_occurs_replace(rest[k].1, xi, tv, y);
                    assert(tv.occurs(y) ==> a@.occurs(y) || b@.occurs(y));
                    assert(rest[k].0.occurs(y) || rest[k].1.occurs(y) ==> vs.contains(y));
                }
            }
            assert(solved_form(nb, ns)) by {
                assert forall|i: int, j: int|
                    0 <= i < nb.len() && 0 <= j < nb.len() implies !(#[trigger] nb[j]).1.occurs(
                    (#[trigger] nb[i]).0,
                ) by {
                    if j < old_bs.len() {
                        lemma_occurs_replace(old_bs[j].1, xi, tv, nb[i].0);
                        if i < old_bs.len() {
                            assert(!old_bs[j].1.occurs(old_bs[i].0));
                        }
                    }
                }
                assert forall|i: int, k: int|
                    0 <= i < nb.len() && 0 <= k < ns.len() implies !(#[trigger] ns[k]).0.occurs(
                    (#[trigger] nb[i]).0,
                ) && !ns[k].1.occurs(nb[i].0) by {
                    lemma_occurs_replace(rest[k].0, xi, tv, nb[i].0);
                    lemma_occurs_replace(rest[k].1, xi, tv, nb[i].0);
                    if i < old_bs.len() {
                        assert(!rest[k].0.occurs(old_bs[i].0));
                    }
                }
            }
            vs = vs.remove(xi);
        }
        stack = new_stack;
        bs = new_bs;
    }
    proof {
        assert(pairs_view(stack@) =~= Seq::empty());
    }
    Ok(bs)
}

/// Whether the equation between `a` and `b` is the one between the variable
/// `x` and `t`, read in either direction.
spec fn unifier_sym(a: TermV, b: TermV, x: int, t: TermV) -> bool {
    (a == TermV::Var(x) && b == t) || (b == TermV::Var(x) && a == t)
}

/// A finite set that holds every variable of the first `n` equations.
proof fn lemma_vars_cover(eqs: Seq<(TermV, TermV)>, n: int) -> (vs: Set<int>)
    requires
        0 <= n <= eqs.len(),
    ensures
        vs.finite(),
        forall|k: int, y: int|
            0 <= k < n && ((#[trigger] eqs[k]).0.occurs(y) || eqs[k].1.occurs(y))
                ==> #[trigger] vs.contains(y),
    decreases n,
{
    if n == 0 {
        Set::empty()
    } else {
        let a = lemma_vars_cover(eqs, n - 1);
        let b = lemma_vars_finite(eqs[n - 1].0);
        let c = lemma_vars_finite(eqs[n - 1].1);
        a.union(b).union(c)
    }
}

/// The unifiers of two sequences of equations put together are those of both.
proof fn lemma_unifier_concat(th: SubstV, s1: Seq<(TermV, TermV)>, s2: Seq<(TermV, TermV)>)
    ensures
        unifier_of_all(th, s1 + s2) <==> unifier_of_all(th, s1) && unifier_of_all(th, s2),
{
    let p = s1 + s2;
    if unifier_of_all(th, p) {
        assert forall|i: int| 0 <= i < s1.len() implies unifier(th, (#[trigger] s1[i]).0, s1[i].1) by {
            assert(p[i] == s1[i]);
        }
        assert forall|i: int| 0 <= i < s2.len() implies unifier(th, (#[trigger] s2[i]).0, s2[i].1) by {
            assert(p[s1.len() + i] == s2[i]);
        }
    }
    if unifier_of_all(th, s1) && unifier_of_all(th, s2) {
        assert forall|i: int| 0 <= i < p.len() implies unifier(th, (#[trigger] p[i]).0, p[i].1) by {
            if i < s1.len() {
                assert(p[i] == s1[i]);
            } else {
                assert(p[i] == s2[i - s1.len()]);
            }
        }
    }
}

/// Binding `x` to `t` and replacing `x` by `t` everywhere keeps the unifiers.
proof fn lemma_eliminate(
    th: SubstV,
    rest: Seq<(TermV, TermV)>,
    bs: Seq<(int, TermV)>,
    ns: Seq<(TermV, TermV)>,
    nb: Seq<(int, TermV)>,
    x: int,
    t: TermV,
)
    requires
        ns.len() == rest.len(),
        nb.len() == bs.len() + 1,
        nb[bs.len() as int] == (x, t),
        forall|k: int|
            0 <= k < rest.len() ==> (#[trigger] ns[k]).0 == rest[k].0.replace(x, t) && ns[k].1
                == rest[k].1.replace(x, t),
        forall|j: int|
            0 <= j < bs.len() ==> (#[trigger] nb[j]).0 == bs[j].0 && nb[j].1 == bs[j].1.replace(
                x,
                t,
            ),
    ensures
        unifier_of_all(th, rest) && unifier(th, TermV::Var(x), t) && solves(th, bs)
            <==> unifier_of_all(th, ns) && solves(th, nb),
{
    if unifier(th, TermV::Var(x), t) {
        assert forall|k: int| 0 <= k < rest.len() implies (unifier(
            th,
            (#[trigger] rest[k]).0,
            rest[k].1,
        ) <==> unifier(th, ns[k].0, ns[k].1)) by {
            lemma_replace_unified(rest[k].0, x, t, th);
            lemma_replace_unified(rest[k].1, x, t, th);
        }
        assert forall|j: int| 0 <= j < bs.len() implies (unifier(
            th,
            TermV::Var((#[trigger] bs[j]).0),
            bs[j].1,
        ) <==> unifier(th, TermV::Var(nb[j].0), nb[j].1)) by {
            lemma_replace_unified(bs[j].1, x, t, th);
        }
        if unifier_of_all(th, rest) && solves(th, bs) {
            assert forall|k: int| 0 <= k < ns.len() implies unifier(
                th,
                (#[trigger] ns[k]).0,
                ns[k].1,
            ) by {
                assert(unifier(th, rest[k].0, rest[k].1));
            }
            assert forall|j: int| 0 <= j < nb.len() implies unifier(
                th,
                TermV::Var((#[trigger] nb[j]).0),
                nb[j].1,
            ) by {
                if j < bs.len() {
                    assert(unifier(th, TermV::Var(bs[j].0), bs[j].1));
                }
            }
        }
        if unifier_of_all(th, ns) && solves(th, nb) {
            assert forall|k: int| 0 <= k < rest.len() implies unifier(
                th,
                (#[trigger] rest[k]).0,
                rest[k].1,
            ) by {
                assert(unifier(th, ns[k].0, ns[k].1));
            }
            assert forall|j: int| 0 <= j < bs.len() implies unifier(
                th,
                TermV::Var((#[trigger] bs[j]).0),
                bs[j].1,
            ) by {
                assert(unifier(th, TermV::Var(nb[j].0), nb[j].1));
            }
        }
    } else {
        if solves(th, nb) {
            assert(unifier(th, TermV::Var(nb[bs.len() as int].0), nb[bs.len() as int].1));
        }
    }
}

/// Solves a set of equations: a most general unifier, which no variable of
/// its domain occurs in, or an error where no unifier exists.
pub fn fullunify(eqs: Vec<(Term, Term)>) -> (r: Result<Substitution, UnificationError>)
    ensures
        match r {
            Ok(s) => {
                &&& unifier_of_all(s@, pairs_view(eqs@))
                &&& idempotent(s@)
                &&& forall|th: SubstV| #[trigger]
                    unifier_of_all(th, pairs_view(eqs@)) ==> refines(th, s@)
            },
            Err(_) => forall|th: SubstV| !#[trigger] unifier_of_all(th, pairs_view(eqs@)),
        },
{
    let ghost e0 = pairs_view(eqs@);
    match unify(eqs) {
        Err(e) => Err(e),
        Ok(bs) => {
            let ghost b0 = binds_view(bs@);
            let mut bs = bs;
            let mut s = Substitution::new();
            while bs.len() > 0
                invariant
                    bs.len() <= b0.len(),
                    binds_view(bs@) =~= b0.take(bs.len() as int),
                    forall|i: int| 0 <= i < b0.len() ==> (#[trigger] b0[i]).0 < 0,
                    forall|i: int, j: int|
                        0 <= i < b0.len() && 0 <= j < b0.len() && i != j ==> (#[trigger] b0[i]).0 != (
                        #[trigger] b0[j]).0,
                    forall|x: int|
                        s@.dom().contains(x) <==> exists|i: int|
                            bs.len() <= i < b0.len() && (#[trigger] b0[i]).0 == x,
                    forall|i: int| bs.len() <= i < b0.len() ==> s@[(#[trigger] b0[i]).0] == b0[i].1,
                decreases bs.len(),
            {
                let ghost k = bs.len() - 1;
                let ghost before = s@;
                let ghost bs_before = bs@;
                let (x, t) = bs.pop().unwrap();
                proof {
                    assert(binds_view(bs_before)[k] == b0.take(k + 1)[k]);
                    assert(b0[k] == (x as int, t@));
                    assert(binds_view(bs@) =~= b0.take(k));
                    if s@.dom().contains(x as int) {
                        let i = choose|i: int| k + 1 <= i < b0.len() && (#[trigger] b0[i]).0 == x as int;
                        assert(b0[i].0 != b0[k].0);
                    }
                }
                s.insert(x, t);
                proof {
                    assert forall|y: int| s@.dom().contains(y) implies exists|i: int|
                        k <= i < b0.len() && (#[trigger] b0[i]).0 == y by {
                        if y == x as int {
                            assert(b0[k].0 == y);
                        } else {
                            assert(before.dom().contains(y));
                            let i = choose|i: int| k + 1 <= i < b0.len() && (#[trigger] b0[i]).0 == y;
                            assert(k <= i < b0.len() && b0[i].0 == y);
                        }
                    }
                    assert forall|i: int| k <= i < b0.len() implies s@[(#[trigger] b0[i]).0]
                        == b0[i].1 by {
                        if i > k {
                            assert(b0[i].0 != b0[k].0);
                        }
                    }
                }
            }
            proof {
                assert(represents(s@, b0));
                lemma_solved_form_solves(s@, b0);
                assert forall|th: SubstV| #[trigger] unifier_of_all(th, e0) implies refines(
                    th,
                    s@,
                ) by {
                    lemma_solves_refines(th, s@, b0);
                }
            }
            Ok(s)
        },
    }
}

/// Computes a most general unifier of two terms.
///
/// The result makes both terms equal, and every unifier of the two terms is
/// an instance of it. An error is returned exactly when the terms have no
/// unifier.
pub fn mgu(s: &Term, t: &Term) -> (r: Result<Substitution, UnificationError>)
    ensures
        match r {
            Ok(sigma) => {
                &&& unifier(sigma@, s@, t@)
                &&& idempotent(sigma@)
                &&& forall|th: SubstV| #[trigger] unifier(th, s@, t@) ==> refines(th, sigma@)
            },
            Err(_) => forall|th: SubstV| !#[trigger] unifier(th, s@, t@),
        },
{
    let mut eqs: Vec<(Term, Term)> = Vec::new();
    eqs.push((s.clone(), t.clone()));
    proof {
        let e = pairs_view(eqs@);
        assert(e[0] == (s@, t@));
        assert forall|th: SubstV| #[trigger] unifier(th, s@, t@) <==> unifier_of_all(th, e) by {
            if unifier_of_all(th, e) {
                assert(unifier(th, e[0].0, e[0].1));
            }
        }
    }
    fullunify(eqs)
}

/// Whether the substitution makes the left sides of the two literals equal
/// and the right sides too.
pub open spec fn unifies_straight(th: SubstV, l1: LiteralV, l2: LiteralV) -> bool {
    unifier(th, l1.lhs, l2.lhs) && unifier(th, l1.rhs, l2.rhs)
}

/// Whether the substitution makes each side of one literal equal to the
/// other side of the other literal.
pub open spec fn unifies_crossed(th: SubstV, l1: LiteralV, l2: LiteralV) -> bool {
    unifier(th, l1.lhs, l2.rhs) && unifier(th, l1.rhs, l2.lhs)
}

/// Whether the substitution makes the two literals the same literal:
/// they have the same polarity, and their sides become equal one way round
/// or the other.
pub open spec fn literal_unifier(th: SubstV, l1: LiteralV, l2: LiteralV) -> bool {
    l1.positive == l2.positive && (unifies_straight(th, l1, l2) || unifies_crossed(th, l1, l2))
}

/// Whether the substitution is the most general unifier of the two
/// literals for the way round that comes first: it makes them the same
/// literal, no variable of its domain occurs in its images, and every
/// substitution that unifies the sides left with left and right with right
/// is an instance of it or, where there is none, every substitution that
/// unifies them crosswise.
pub open spec fn literal_mgu(s: SubstV, l1: LiteralV, l2: LiteralV) -> bool {
    &&& literal_unifier(s, l1, l2)
    &&& idempotent(s)
    &&& if exists|th: SubstV| unifies_straight(th, l1, l2) {
        unifies_straight(s, l1, l2) && forall|th: SubstV| #[trigger]
            unifies_straight(th, l1, l2) ==> refines(th, s)
    } else {
        unifies_crossed(s, l1, l2) && forall|th: SubstV| #[trigger]
            unifies_crossed(th, l1, l2) ==> refines(th, s)
    }
}

/// The two equations between the sides of two literals.
fn side_equations(a: &Term, b: &Term, c: &Term, d: &Term) -> (eqs: Vec<(Term, Term)>)
    ensures
        pairs_view(eqs@) == seq![(a@, b@), (c@, d@)],
{
    let mut eqs: Vec<(Term, Term)> = Vec::new();
    eqs.push((a.clone(), b.clone()));
    eqs.push((c.clone(), d.clone()));
    proof {
        assert(pairs_view(eqs@) =~= seq![(a@, b@), (c@, d@)]);
    }
    eqs
}

/// Computes a unifier of two literals, which makes them the same literal.
///
/// Literals of different polarity have none. Else the sides are unified
/// left with left and right with right; where that cannot be done, they are
/// unified crosswise, since an equation can be read both ways. The result
/// is a most general unifier for the way round that was taken. An error is
/// returned exactly when no substitution makes the two the same literal.
pub fn unify_literals(l1: &Literal, l2: &Literal) -> (r: Result<Substitution, UnificationError>)
    ensures
        match r {
            Ok(sigma) => literal_mgu(sigma@, l1@, l2@),
            Err(_) => forall|th: SubstV| !#[trigger] literal_unifier(th, l1@, l2@),
        },
{
    if l1.is_positive() != l2.is_positive() {
        return Err(UnificationError::NotUnifiable);
    }
    let straight = side_equations(l1.get_lhs(), l2.get_lhs(), l1.get_rhs(), l2.get_rhs());
    let ghost e1 = pairs_view(straight@);
    proof {
        assert forall|th: SubstV| #[trigger] unifies_straight(th, l1@, l2@) implies unifier_of_all(
            th,
            e1,
        ) by {
            assert forall|i: int| 0 <= i < e1.len() implies unifier(
                th,
                (#[trigger] e1[i]).0,
                e1[i].1,
            ) by {}
        }
        assert forall|th: SubstV| #[trigger] unifier_of_all(th, e1) implies unifies_straight(
            th,
            l1@,
            l2@,
        ) by {
            assert(unifier(th, e1[0].0, e1[0].1));
            assert(unifier(th, e1[1].0, e1[1].1));
        }
    }
    match fullunify(straight) {
        Ok(sigma) => {
            proof {
                assert(unifier_of_all(sigma@, e1));
                assert(unifies_straight(sigma@, l1@, l2@));
                assert forall|th: SubstV| #[trigger] unifies_straight(th, l1@, l2@) implies refines(
                    th,
                    sigma@,
                ) by {
                    assert(unifier_of_all(th, e1));
                }
            }
            return Ok(sigma);
        },
        Err(_) => {},
    }
    proof {
        assert forall|th: SubstV| !unifies_straight(th, l1@, l2@) by {
            if unifies_straight(th, l1@, l2@) {
                assert(unifier_of_all(th, e1));
            }
        }
    }
    let crossed = side_equations(l1.get_lhs(), l2.get_rhs(), l1.get_rhs(), l2.get_lhs());
    let ghost e2 = pairs_view(crossed@);
    proof {
        assert forall|th: SubstV| #[trigger] unifies_crossed(th, l1@, l2@) implies unifier_of_all(
            th,
            e2,
        ) by {
            assert forall|i: int| 0 <= i < e2.len() implies unifier(
                th,
                (#[trigger] e2[i]).0,
                e2[i].1,
            ) by {}
        }
        assert forall|th: SubstV| #[trigger] unifier_of_all(th, e2) implies unifies_crossed(
            th,
            l1@,
            l2@,
        ) by {
            assert(unifier(th, e2[0].0, e2[0].1));
            assert(unifier(th, e2[1].0, e2[1].1));
        }
    }
    let r = fullunify(crossed);
    proof {
        match &r {
            Ok(sigma) => {
                assert(unifier_of_all(sigma@, e2));
                assert(unifies_crossed(sigma@, l1@, l2@));
                assert forall|th: SubstV| #[trigger] unifies_crossed(th, l1@, l2@) implies refines(
                    th,
                    sigma@,
                ) by {
                    assert(unifier_of_all(th, e2));
                }
            },
            Err(_) => {
                assert forall|th: SubstV| !#[trigger] literal_unifier(th, l1@, l2@) by {
                    if unifies_crossed(th, l1@, l2@) {
                        assert(unifier_of_all(th, e2));
                    }
                }
            },
        }
    }
    r
}

} // verus!
