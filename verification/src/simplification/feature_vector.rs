//! Feature vectors: numbers of a clause that are no larger in a clause
//! that subsumes it, so that most clauses can be told apart from the
//! subsumed ones without matching. The index holds the feature vectors of
//! the active clauses.
use crate::clause::{Clause, ClauseV};
use crate::simplification::subsumption::{embedding, subsumes_spec};
use crate::term::SubstV;
use vstd::prelude::*;
use vstd::relations::injective_on;
use vstd::set_lib::{lemma_int_range, lemma_len_subset, lemma_map_size, set_int_range};

verus! {

/// The features of a clause: the numbers of its equations and of its
/// disequations.
#[derive(Debug, Clone, Copy, PartialEq, Eq)]
pub struct FeatureVector {
    pub positive: usize,
    pub negative: usize,
}

/// The places of the literals of the clause that have the given polarity.
pub open spec fn places(c: ClauseV, positive: bool) -> Set<int> {
    Set::new(|i: int| 0 <= i < c.len() && c[i].positive == positive)
}

/// Whether the features are those of the clause.
pub open spec fn features_of(fv: FeatureVector, c: ClauseV) -> bool {
    fv.positive == places(c, true).len() && fv.negative == places(c, false).len()
}

/// Whether no feature of `a` is larger than that of `b`: only then can a
/// clause with the features `a` subsume one with the features `b`.
pub open spec fn dominated(a: FeatureVector, b: FeatureVector) -> bool {
    a.positive <= b.positive && a.negative <= b.negative
}

/// The places of a polarity are finitely many, at most as many as the
/// clause has literals.
pub proof fn lemma_places_finite(c: ClauseV, positive: bool)
    ensures
        places(c, positive).finite(),
        places(c, positive).len() <= c.len(),
{
    lemma_int_range(0, c.len() as int);
    assert(places(c, positive).subset_of(set_int_range(0, c.len() as int)));
    lemma_len_subset(places(c, positive), set_int_range(0, c.len() as int));
}

/// One more literal makes one more place of its polarity.
pub proof fn lemma_places_take(c: ClauseV, i: int, positive: bool)
    requires
        0 <= i < c.len(),
    ensures
        places(c.take(i + 1), positive).len() == places(c.take(i), positive).len() + (if c[i].positive
            == positive {
            1int
        } else {
            0int
        }),
{
    let before = places(c.take(i), positive);
    let after = places(c.take(i + 1), positive);
    lemma_places_finite(c.take(i), positive);
    if c[i].positive == positive {
        assert(after =~= before.insert(i)) by {
            assert forall|k: int| after.contains(k) <==> before.insert(i).contains(k) by {
                if 0 <= k < i {
                    assert(c.take(i)[k] == c.take(i + 1)[k]);
                }
            }
        }
        assert(!before.contains(i));
    } else {
        assert(after =~= before) by {
            assert forall|k: int| after.contains(k) <==> before.contains(k) by {
                if 0 <= k < i {
                    assert(c.take(i)[k] == c.take(i + 1)[k]);
                }
            }
        }
    }
}

/// A clause that subsumes another has no more literals of a polarity than
/// the other has.
pub proof fn lemma_embedding_places(c: ClauseV, d: ClauseV, th: SubstV, f: Seq<int>, positive: bool)
    requires
        embedding(c, d, th, f, 0),
    ensures
        places(c, positive).len() <= places(d, positive).len(),
{
    let from = places(c, positive);
    let to = places(d, positive);
    let g = |k: int| f[k];
    lemma_places_finite(c, positive);
    lemma_places_finite(d, positive);
    assert(injective_on(g, from)) by {
        assert forall|a: int, b: int|
            from.contains(a) && from.contains(b) && #[trigger] g(a) == #[trigger] g(b) implies a
            == b by {
            if a < b {
                assert(f[a] != f[b]);
            } else if b < a {
                assert(f[b] != f[a]);
            }
        }
    }
    lemma_map_size(from, from.map(g), g);
    assert(from.map(g).subset_of(to)) by {
        assert forall|j: int| from.map(g).contains(j) implies to.contains(j) by {
            let k = choose|k: int| from.contains(k) && g(k) == j;
            assert(c[k].apply(th).same(d[f[k]]));
        }
    }
    lemma_len_subset(from.map(g), to);
}

/// The features of a clause that subsumes another are dominated by those
/// of the other: a clause whose features are not dominated subsumes not.
pub proof fn lemma_subsumption_features(c: ClauseV, d: ClauseV, a: FeatureVector, b: FeatureVector)
    requires
        subsumes_spec(c, d),
        features_of(a, c),
        features_of(b, d),
    ensures
        dominated(a, b),
{
    let (th, f) = choose|th: SubstV, f: Seq<int>| embedding(c, d, th, f, 0);
    lemma_embedding_places(c, d, th, f, true);
    lemma_embedding_places(c, d, th, f, false);
}

/// Counts the equations and the disequations of a clause.
pub fn feature_vector(cl: &Clause) -> (fv: FeatureVector)
    ensures
        features_of(fv, cl@),
{
    let n = cl.size();
    let mut positive: usize = 0;
    let mut negative: usize = 0;
    let mut i: usize = 0;
    proof {
        assert(places(cl@.take(0), true) =~= Set::<int>::empty());
        assert(places(cl@.take(0), false) =~= Set::<int>::empty());
    }
    while i < n
        invariant
            0 <= i <= n,
            n == cl@.len(),
            positive == places(cl@.take(i as int), true).len(),
            negative == places(cl@.take(i as int), false).len(),
            positive + negative <= i,
        decreases n - i,
    {
        proof {
            lemma_places_take(cl@, i as int, true);
            lemma_places_take(cl@, i as int, false);
        }
        if cl.at(i).is_positive() {
            positive = positive + 1;
        } else {
            negative = negative + 1;
        }
        i += 1;
    }
    proof {
        assert(cl@.take(n as int) =~= cl@);
    }
    FeatureVector { positive, negative }
}

/// Whether a clause with the features `a` may subsume one with the
/// features `b`.
pub fn may_subsume(a: &FeatureVector, b: &FeatureVector) -> (r: bool)
    ensures
        r == dominated(*a, *b),
{
    a.positive <= b.positive && a.negative <= b.negative
}

/// An index of clauses for subsumption: the feature vector of each clause,
/// in the order of the clauses.
#[derive(Debug)]
pub struct SubsumptionIndex {
    pub vectors: Vec<FeatureVector>,
}

impl SubsumptionIndex {
    /// Whether the index holds the features of the clauses, in their order.
    pub open spec fn describes(&self, clauses: Seq<Clause>) -> bool {
        &&& self.vectors@.len() == clauses.len()
        &&& forall|k: int|
            0 <= k < clauses.len() ==> features_of(#[trigger] self.vectors@[k], clauses[k]@)
    }

    /// An index of no clauses.
    pub fn new() -> (index: SubsumptionIndex)
        ensures
            index.vectors@.len() == 0,
    {
        SubsumptionIndex { vectors: Vec::new() }
    }

    /// The number of clauses in the index.
    pub fn size(&self) -> (n: usize)
        ensures
            n == self.vectors@.len(),
    {
        self.vectors.len()
    }

    /// Adds a clause behind the others.
    pub fn insert(&mut self, cl: &Clause)
        ensures
            final(self).vectors@.len() == old(self).vectors@.len() + 1,
            forall|k: int|
                0 <= k < old(self).vectors@.len() ==> final(self).vectors@[k] == old(
                    self,
                ).vectors@[k],
            features_of(final(self).vectors@[old(self).vectors@.len() as int], cl@),
    {
        self.vectors.push(feature_vector(cl));
    }

    /// Whether the `k`-th clause may subsume a clause with the features `q`.
    pub fn may_subsume(&self, k: usize, q: &FeatureVector) -> (r: bool)
        requires
            k < self.vectors@.len(),
        ensures
            r == dominated(self.vectors@[k as int], *q),
    {
        may_subsume(&self.vectors[k], q)
    }

    /// Whether a clause with the features `q` may subsume the `k`-th clause.
    pub fn may_be_subsumed(&self, k: usize, q: &FeatureVector) -> (r: bool)
        requires
            k < self.vectors@.len(),
        ensures
            r == dominated(*q, self.vectors@[k as int]),
    {
        may_subsume(q, &self.vectors[k])
    }
}

} // verus!
