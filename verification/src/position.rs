//! Positions in terms: paths from the root through argument places.
use crate::term::{Term, TermV};
use vstd::prelude::*;

verus! {

/// Whether the path leads to a subterm of the term.
pub open spec fn valid_position(t: TermV, p: Seq<int>) -> bool
    decreases p.len(),
{
    p.len() == 0 || (t is Fun && 0 <= p[0] < t.args().len() && valid_position(
        t.args()[p[0]],
        p.drop_first(),
    ))
}

/// The subterm at the end of a path.
pub open spec fn subterm_at(t: TermV, p: Seq<int>) -> TermV
    decreases p.len(),
{
    if p.len() == 0 {
        t
    } else {
        subterm_at(t.args()[p[0]], p.drop_first())
    }
}

/// The term with the subterm at the end of a path replaced by `r`.
pub open spec fn replace_at(t: TermV, p: Seq<int>, r: TermV) -> TermV
    decreases p.len(),
{
    if p.len() == 0 {
        r
    } else {
        TermV::Fun(
            t.id(),
            t.predicate(),
            t.args().update(p[0], replace_at(t.args()[p[0]], p.drop_first(), r)),
        )
    }
}

/// The path as a sequence of mathematical integers.
pub open spec fn path_view(p: Seq<usize>) -> Seq<int> {
    Seq::new(p.len(), |i: int| p[i] as int)
}

/// The subterm at a position is a subterm.
pub proof fn lemma_subterm_at(t: TermV, p: Seq<int>)
    requires
        valid_position(t, p),
    ensures
        t.has_subterm(subterm_at(t, p)),
    decreases p.len(),
{
    if p.len() > 0 {
        lemma_subterm_at(t.args()[p[0]], p.drop_first());
    }
}

impl Term {
    /// The subterm at the end of the path that starts at place `from` of `p`.
    pub fn subterm_at(&self, p: &Vec<usize>, from: usize) -> (u: &Term)
        requires
            from <= p.len(),
            valid_position(self@, path_view(p@).skip(from as int)),
        ensures
            u@ == subterm_at(self@, path_view(p@).skip(from as int)),
        decreases p.len() - from,
    {
        let ghost q = path_view(p@).skip(from as int);
        if from == p.len() {
            self
        } else {
            proof {
                assert(q[0] == p[from as int] as int);
                assert(q.drop_first() =~= path_view(p@).skip(from as int + 1));
                assert(self@.args()[q[0]] == self.args[q[0]]@);
            }
            self.args[p[from]].subterm_at(p, from + 1)
        }
    }

    /// The term with the subterm at the end of the path that starts at place
    /// `from` of `p` replaced by `r`.
    pub fn replace_at(&self, p: &Vec<usize>, from: usize, r: &Term) -> (n: Term)
        requires
            from <= p.len(),
            valid_position(self@, path_view(p@).skip(from as int)),
        ensures
            n@ == replace_at(self@, path_view(p@).skip(from as int), r@),
        decreases p.len() - from,
    {
        let ghost q = path_view(p@).skip(from as int);
        if from == p.len() {
            return r.clone();
        }
        proof {
            assert(q[0] == p[from as int] as int);
            assert(q.drop_first() =~= path_view(p@).skip(from as int + 1));
            assert(self@.args()[q[0]] == self.args[q[0]]@);
        }
        let k = p[from];
        let len = self.args.len();
        let mut args: Vec<Term> = Vec::new();
        let mut i: usize = 0;
        while i < len
            invariant
                0 <= i <= len,
                len == self.args.len(),
                self.id >= 0,
                k < len,
                k == q[0],
                from < p.len(),
                valid_position(self.args[k as int]@, q.drop_first()),
                q.drop_first() == path_view(p@).skip(from as int + 1),
                args.len() == i,
                forall|j: int|
                    0 <= j < i ==> (#[trigger] args[j])@ == if j == k {
                        replace_at(self.args[j]@, q.drop_first(), r@)
                    } else {
                        self.args[j]@
                    },
            decreases len - i,
        {
            if i == k {
                args.push(self.args[i].replace_at(p, from + 1, r));
            } else {
                args.push(self.args[i].clone());
            }
            i += 1;
        }
        let n = Term { id: self.id, predicate: self.predicate, args };
        proof {
            assert(n@.args() =~= replace_at(self@, q, r@).args());
        }
        n
    }

    /// Adds to `out` the paths to the subterms of the term that are not
    /// variables, each with `prefix` before it.
    fn collect_positions(&self, prefix: &mut Vec<usize>, out: &mut Vec<Vec<usize>>)
        ensures
            final(prefix)@ == old(prefix)@,
            paths(final(out)@) == paths(old(out)@) + positions_from(
                self@,
                path_view(old(prefix)@),
            ),
        decreases self,
    {
        if self.id < 0 {
            proof {
                assert(paths(out@) =~= paths(out@) + Seq::<Seq<int>>::empty());
            }
            return ;
        }
        let ghost pre = path_view(prefix@);
        let ghost out0 = paths(out@);
        out.push(prefix.clone());
        proof {
            assert(paths(out@) =~= out0 + seq![pre] + positions_args(self@, pre, 0));
        }
        let n = self.args.len();
        let mut i: usize = 0;
        while i < n
            invariant
                0 <= i <= n,
                n == self.args.len(),
                self.id >= 0,
                path_view(prefix@) == pre,
                prefix@ == old(prefix)@,
                paths(out@) == out0 + seq![pre] + positions_args(self@, pre, i as int),
            decreases n - i,
        {
            let ghost before = paths(out@);
            prefix.push(i);
            proof {
                assert(path_view(prefix@) =~= pre.push(i as int));
                assert(self@.args()[i as int] == self.args[i as int]@);
            }
            self.args[i].collect_positions(prefix, out);
            prefix.pop();
            proof {
                assert(prefix@ =~= old(prefix)@);
                assert(paths(out@) =~= out0 + seq![pre] + positions_args(self@, pre, i as int + 1));
            }
            i += 1;
        }
        proof {
            assert(paths(out@) =~= out0 + positions_from(self@, pre));
        }
    }

    /// The paths to the subterms of the term that are not variables: each
    /// path of the result leads to such a subterm, and each such subterm is
    /// at the end of a path of the result.
    pub fn positions(&self) -> (out: Vec<Vec<usize>>)
        ensures
            paths(out@) == positions_from(self@, Seq::empty()),
            forall|i: int|
                0 <= i < out@.len() ==> valid_position(self@, path_view((#[trigger] out@[i])@))
                    && subterm_at(self@, path_view(out@[i]@)) is Fun,
            forall|q: Seq<int>|
                valid_position(self@, q) && subterm_at(self@, q) is Fun ==> exists|i: int|
                    0 <= i < out@.len() && path_view((#[trigger] out@[i])@) == q,
    {
        let mut prefix: Vec<usize> = Vec::new();
        let mut out: Vec<Vec<usize>> = Vec::new();
        self.collect_positions(&mut prefix, &mut out);
        proof {
            let e = Seq::<int>::empty();
            assert(path_view(prefix@) =~= e);
            assert(paths(out@) =~= positions_from(self@, e));
            assert forall|i: int| 0 <= i < out@.len() implies valid_position(
                self@,
                path_view((#[trigger] out@[i])@),
            ) && subterm_at(self@, path_view(out@[i]@)) is Fun by {
                assert(paths(out@)[i] == path_view(out@[i]@));
                let q = lemma_positions_sound(self@, e, i);
                assert(e + q =~= q);
            }
            assert forall|q: Seq<int>|
                valid_position(self@, q) && subterm_at(self@, q) is Fun implies exists|i: int|
                0 <= i < out@.len() && path_view((#[trigger] out@[i])@) == q by {
                let i = lemma_positions_complete(self@, e, q);
                assert(e + q =~= q);
                assert(paths(out@)[i] == path_view(out@[i]@));
            }
        }
        out
    }
}

/// The paths of a sequence of stored paths.
pub open spec fn paths(out: Seq<Vec<usize>>) -> Seq<Seq<int>> {
    Seq::new(out.len(), |i: int| path_view(out[i]@))
}

/// The paths to the subterms of `t` that are not variables, each with
/// `prefix` before it: first the path to `t` itself, then those into the
/// first argument, and so on.
pub open spec fn positions_from(t: TermV, prefix: Seq<int>) -> Seq<Seq<int>>
    decreases t, 1int, 0int,
{
    match t {
        TermV::Var(_) => Seq::empty(),
        TermV::Fun(_, _, args) => seq![prefix] + positions_args(t, prefix, args.len() as int),
    }
}

/// The paths into the first `k` arguments of `t`, each with `prefix` before it.
pub open spec fn positions_args(t: TermV, prefix: Seq<int>, k: int) -> Seq<Seq<int>>
    decreases t, 0int, k,
{
    if k <= 0 || !(t is Fun) || k > t.args().len() {
        Seq::empty()
    } else {
        positions_args(t, prefix, k - 1) + positions_from(t.args()[k - 1], prefix.push(k - 1))
    }
}

/// Each listed path is the prefix followed by a path to a subterm that is
/// not a variable.
pub proof fn lemma_positions_sound(t: TermV, prefix: Seq<int>, i: int) -> (q: Seq<int>)
    requires
        0 <= i < positions_from(t, prefix).len(),
    ensures
        positions_from(t, prefix)[i] == prefix + q,
        valid_position(t, q),
        subterm_at(t, q) is Fun,
    decreases t, 1int, 0int,
{
    if i == 0 {
        let q = Seq::<int>::empty();
        assert(prefix + q =~= prefix);
        q
    } else {
        lemma_positions_args_sound(t, prefix, t.args().len() as int, i - 1)
    }
}

/// Each path listed for the arguments is the prefix followed by a path to a
/// subterm that is not a variable.
proof fn lemma_positions_args_sound(t: TermV, prefix: Seq<int>, k: int, i: int) -> (q: Seq<int>)
    requires
        t is Fun,
        0 <= k <= t.args().len(),
        0 <= i < positions_args(t, prefix, k).len(),
    ensures
        positions_args(t, prefix, k)[i] == prefix + q,
        valid_position(t, q),
        subterm_at(t, q) is Fun,
    decreases t, 0int, k,
{
    let first = positions_args(t, prefix, k - 1);
    if i < first.len() {
        lemma_positions_args_sound(t, prefix, k - 1, i)
    } else {
        let q2 = lemma_positions_sound(t.args()[k - 1], prefix.push(k - 1), i - first.len());
        let q = seq![k - 1] + q2;
        assert(q.drop_first() =~= q2);
        assert(prefix + q =~= prefix.push(k - 1) + q2);
        q
    }
}

/// Each path to a subterm that is not a variable is listed.
pub proof fn lemma_positions_complete(t: TermV, prefix: Seq<int>, q: Seq<int>) -> (i: int)
    requires
        valid_position(t, q),
        subterm_at(t, q) is Fun,
    ensures
        0 <= i < positions_from(t, prefix).len(),
        positions_from(t, prefix)[i] == prefix + q,
    decreases t, 1int, 0int,
{
    if q.len() == 0 {
        assert(prefix + q =~= prefix);
        0
    } else {
        let i = lemma_positions_args_complete(t, prefix, t.args().len() as int, q);
        i + 1
    }
}

/// Each path through one of the first `k` arguments to a subterm that is not
/// a variable is listed for the arguments.
proof fn lemma_positions_args_complete(t: TermV, prefix: Seq<int>, k: int, q: Seq<int>) -> (i: int)
    requires
        t is Fun,
        0 <= k <= t.args().len(),
        q.len() > 0,
        q[0] < k,
        valid_position(t, q),
        subterm_at(t, q) is Fun,
    ensures
        0 <= i < positions_args(t, prefix, k).len(),
        positions_args(t, prefix, k)[i] == prefix + q,
    decreases t, 0int, k,
{
    let first = positions_args(t, prefix, k - 1);
    if q[0] < k - 1 {
        lemma_positions_args_complete(t, prefix, k - 1, q)
    } else {
        let q2 = q.drop_first();
        let j = lemma_positions_complete(t.args()[k - 1], prefix.push(k - 1), q2);
        assert(q =~= seq![k - 1] + q2);
        assert(prefix + q =~= prefix.push(k - 1) + q2);
        first.len() + j
    }
}

} // verus!
