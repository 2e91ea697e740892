//! The passive clauses, chosen in turn by size and by age.
use crate::clause::{clause_weighted_size, Clause};
use crate::clause_selection::clause_weight::ClauseWeight;
use crate::term::clip;
use vstd::prelude::*;

verus! {

/// A passive clause with its two weights.
#[derive(Debug)]
pub struct PassiveEntry {
    pub size: ClauseWeight,
    pub age: ClauseWeight,
    pub clause: Clause,
}

/// The passive clauses. Clauses get their IDs here, in the order in which
/// they come. After `pick_ratio` choices by size the next choice is by age.
#[derive(Debug)]
pub struct PassiveSet {
    pub entries: Vec<PassiveEntry>,
    pub pick_ratio: u64,
    pub since_age: u64,
    pub next_id: u64,
    pub f_value: u64,
    pub v_value: u64,
}

impl PassiveSet {
    /// Whether the weights belong to the clauses, the IDs are different and
    /// below the next ID, and the count of choices is within the ratio.
    pub open spec fn wf(&self) -> bool {
        &&& self.since_age <= self.pick_ratio
        &&& forall|i: int|
            0 <= i < self.entries@.len() ==> {
                let e = #[trigger] self.entries@[i];
                &&& e.clause.id < self.next_id
                &&& e.age == ClauseWeight::Age(e.clause.id)
                &&& e.size == ClauseWeight::Size(
                    e.clause.id,
                    clip(clause_weighted_size(e.clause@, self.f_value as nat, self.v_value as nat)),
                )
            }
        &&& forall|i: int, j: int|
            0 <= i < j < self.entries@.len() ==> (#[trigger] self.entries@[i]).clause.id != (
            #[trigger] self.entries@[j]).clause.id
    }

    /// The passive clauses in the order in which they came.
    pub open spec fn clauses(&self) -> Seq<Clause> {
        Seq::new(self.entries@.len(), |i: int| self.entries@[i].clause)
    }

    /// Whether the next choice is by age.
    pub open spec fn age_turn(&self) -> bool {
        self.since_age >= self.pick_ratio
    }

    /// Whether the `k`-th entry is the one to choose next: by age the one
    /// with the least ID, by size the one that is preferred to all others.
    pub open spec fn best(&self, k: int) -> bool {
        &&& 0 <= k < self.entries@.len()
        &&& forall|j: int|
            0 <= j < self.entries@.len() && j != k ==> if self.age_turn() {
                self.entries@[k].age.preferred((#[trigger] self.entries@[j]).age)
            } else {
                self.entries@[k].size.preferred((#[trigger] self.entries@[j]).size)
            }
    }

    /// How many passive clauses are older than the clause with the given ID.
    pub open spec fn older(&self, id: u64) -> nat {
        older_among(self.clauses(), id)
    }

    /// Whether a passive clause has the given ID.
    pub open spec fn waits(&self, id: u64) -> bool {
        exists|i: int| 0 <= i < self.entries@.len() && (#[trigger] self.entries@[i]).clause.id == id
    }

    /// After how many choices at the latest the clause with the given ID is
    /// chosen: each older clause can be chosen before it in an age turn of
    /// its own, and an age turn comes after at most `pick_ratio` other turns.
    pub open spec fn waiting_bound(&self, id: u64) -> int {
        self.older(id) * (self.pick_ratio + 1) + (self.pick_ratio - self.since_age) + 1
    }

    /// Whether `next` is this set after the choice of its best clause.
    pub open spec fn chosen(&self, next: PassiveSet) -> bool {
        &&& next.pick_ratio == self.pick_ratio
        &&& next.since_age == if self.age_turn() {
            0
        } else {
            self.since_age + 1
        }
        &&& exists|k: int| #[trigger] self.best(k) && next.entries@ == self.entries@.remove(k)
    }

    /// Whether `next` is this set with one more clause, which got the next ID.
    pub open spec fn added(&self, next: PassiveSet) -> bool {
        &&& next.pick_ratio == self.pick_ratio
        &&& next.since_age == self.since_age
        &&& next.next_id == self.next_id + 1
        &&& next.entries@.len() == self.entries@.len() + 1
        &&& next.entries@.drop_last() == self.entries@
        &&& next.entries@.last().clause.id == self.next_id
    }

    /// An empty set of passive clauses.
    pub fn new(pick_ratio: u64, f_value: u64, v_value: u64) -> (p: PassiveSet)
        ensures
            p.wf(),
            p.entries@.len() == 0,
            p.pick_ratio == pick_ratio,
            p.since_age == 0,
            p.next_id == 0,
            p.f_value == f_value,
            p.v_value == v_value,
    {
        PassiveSet { entries: Vec::new(), pick_ratio, since_age: 0, next_id: 0, f_value, v_value }
    }

    /// The number of passive clauses.
    pub fn len(&self) -> (n: usize)
        ensures
            n == self.entries@.len(),
    {
        self.entries.len()
    }

    /// Whether there is no passive clause.
    pub fn is_empty(&self) -> (r: bool)
        ensures
            r == (self.entries@.len() == 0),
    {
        self.entries.len() == 0
    }

    /// Whether another clause can get an ID.
    pub fn has_room(&self) -> (r: bool)
        ensures
            r == (self.next_id < u64::MAX),
    {
        self.next_id < u64::MAX
    }

    /// Adds a clause, which gets the next ID and is younger than all that came before.
    pub fn push(&mut self, cl: Clause)
        requires
            old(self).wf(),
            old(self).next_id < u64::MAX,
        ensures
            final(self).wf(),
            final(self).entries@.len() == old(self).entries@.len() + 1,
            forall|i: int|
                0 <= i < old(self).entries@.len() ==> final(self).entries@[i] == old(
                    self,
                ).entries@[i],
            final(self).entries@.last().clause@ == cl@,
            final(self).entries@.last().clause.id == old(self).next_id,
            final(self).next_id == old(self).next_id + 1,
            final(self).pick_ratio == old(self).pick_ratio,
            final(self).since_age == old(self).since_age,
            final(self).f_value == old(self).f_value,
            final(self).v_value == old(self).v_value,
            forall|id: u64|
                old(self).waits(id) ==> final(self).waiting_bound(id) == #[trigger] old(
                    self,
                ).waiting_bound(id),
    {
        let mut cl = cl;
        cl.set_id(self.next_id);
        let size = ClauseWeight::new_size_weight(&cl, self.f_value, self.v_value);
        let age = ClauseWeight::new_age_weight(&cl);
        self.entries.push(PassiveEntry { size, age, clause: cl });
        self.next_id = self.next_id + 1;
        proof {
            assert(self.entries@.drop_last() =~= old(self).entries@);
            assert(old(self).added(*self));
            assert forall|id: u64| old(self).waits(id) implies self.waiting_bound(id)
                == #[trigger] old(self).waiting_bound(id) by {
                lemma_addition_keeps_bound(*old(self), *self, id);
            }
        }
    }

    /// The place of the entry to choose next.
    fn best_index(&self) -> (k: usize)
        requires
            self.wf(),
            self.entries@.len() > 0,
        ensures
            self.best(k as int),
    {
        let by_age = self.since_age >= self.pick_ratio;
        let n = self.entries.len();
        let mut k: usize = 0;
        let mut i: usize = 1;
        while i < n
            invariant
                1 <= i <= n,
                n == self.entries@.len(),
                0 <= k < i,
                self.wf(),
                by_age == self.age_turn(),
                forall|j: int|
                    0 <= j < i && j != k ==> if by_age {
                        self.entries@[k as int].age.preferred((#[trigger] self.entries@[j]).age)
                    } else {
                        self.entries@[k as int].size.preferred((#[trigger] self.entries@[j]).size)
                    },
            decreases n - i,
        {
            let better = if by_age {
                self.entries[i].age.precedes(&self.entries[k].age)
            } else {
                self.entries[i].size.precedes(&self.entries[k].size)
            };
            proof {
                assert(self.entries@[i as int].clause.id != self.entries@[k as int].clause.id);
            }
            if better {
                k = i;
            }
            i += 1;
        }
        k
    }

    /// Removes and yields the clause to analyze next, if there is a passive
    /// clause: in an age turn the oldest clause, otherwise the clause with
    /// the fewest symbols and, among those, the oldest.
    pub fn pop_best(&mut self) -> (r: Option<Clause>)
        requires
            old(self).wf(),
        ensures
            final(self).wf(),
            final(self).next_id == old(self).next_id,
            final(self).pick_ratio == old(self).pick_ratio,
            final(self).f_value == old(self).f_value,
            final(self).v_value == old(self).v_value,
            match r {
                None => old(self).entries@.len() == 0 && final(self).entries@ == old(
                    self,
                ).entries@ && final(self).since_age == old(self).since_age,
                Some(c) => exists|k: int|
                    {
                        &&& #[trigger] old(self).best(k)
                        &&& c == old(self).entries@[k].clause
                        &&& final(self).entries@ == old(self).entries@.remove(k)
                        &&& final(self).since_age == if old(self).age_turn() {
                            0
                        } else {
                            old(self).since_age + 1
                        }
                    },
            },
            forall|id: u64|
                final(self).waits(id) ==> 1 <= final(self).waiting_bound(id) < #[trigger] old(
                    self,
                ).waiting_bound(id),
    {
        if self.entries.len() == 0 {
            return None;
        }
        let k = self.best_index();
        if self.since_age >= self.pick_ratio {
            self.since_age = 0;
        } else {
            self.since_age = self.since_age + 1;
        }
        let e = self.entries.remove(k);
        proof {
            assert(old(self).chosen(*self));
            assert forall|id: u64| self.waits(id) implies 1 <= self.waiting_bound(id)
                < #[trigger] old(self).waiting_bound(id) by {
                lemma_choice_lowers_bound(*old(self), *self, id);
            }
        }
        Some(e.clause)
    }
}

/// How many of the clauses have an ID below `id`.
pub open spec fn older_among(cs: Seq<Clause>, id: u64) -> nat
    decreases cs.len(),
{
    if cs.len() == 0 {
        0
    } else {
        older_among(cs.drop_last(), id) + if cs.last().id < id {
            1nat
        } else {
            0nat
        }
    }
}

/// Without the `k`-th clause, one clause less is older than `id` if the
/// `k`-th clause was older.
pub proof fn lemma_older_remove(cs: Seq<Clause>, k: int, id: u64)
    requires
        0 <= k < cs.len(),
    ensures
        older_among(cs.remove(k), id) + (if cs[k].id < id {
            1nat
        } else {
            0nat
        }) == older_among(cs, id),
    decreases cs.len(),
{
    if k == cs.len() - 1 {
        assert(cs.remove(k) =~= cs.drop_last());
    } else {
        assert(cs.remove(k).drop_last() =~= cs.drop_last().remove(k));
        assert(cs.remove(k).last() == cs.last());
        lemma_older_remove(cs.drop_last(), k, id);
    }
}

/// A choice lowers the bound of every clause that still waits, and the
/// bound of a waiting clause is at least one.
pub proof fn lemma_choice_lowers_bound(p: PassiveSet, q: PassiveSet, id: u64)
    requires
        p.wf(),
        p.chosen(q),
        q.waits(id),
    ensures
        1 <= q.waiting_bound(id) < p.waiting_bound(id),
{
    let k = choose|k: int| #[trigger] p.best(k) && q.entries@ == p.entries@.remove(k);
    let cs = p.clauses();
    assert(q.clauses() =~= cs.remove(k));
    let i = choose|i: int| 0 <= i < q.entries@.len() && (#[trigger] q.entries@[i]).clause.id == id;
    let j = if i < k {
        i
    } else {
        i + 1
    };
    assert(p.entries@[j].clause.id == id);
    lemma_older_remove(cs, k, id);
    let r = p.pick_ratio as int;
    let o = p.older(id) as int;
    let o2 = q.older(id) as int;
    assert(o2 * (r + 1) >= 0) by (nonlinear_arith)
        requires
            o2 >= 0,
            r >= 0,
    ;
    if p.age_turn() {
        assert(p.entries@[k].age.preferred(p.entries@[j].age));
        assert(cs[k].id < id);
        assert(o2 == o - 1);
        assert((o - 1) * (r + 1) == o * (r + 1) - (r + 1)) by (nonlinear_arith);
    } else {
        assert(o2 <= o);
        assert(o2 * (r + 1) <= o * (r + 1)) by (nonlinear_arith)
            requires
                o2 <= o,
                r >= 0,
        ;
    }
}

/// A clause that comes later changes the bound of no clause that waits.
pub proof fn lemma_addition_keeps_bound(p: PassiveSet, q: PassiveSet, id: u64)
    requires
        p.wf(),
        p.added(q),
        p.waits(id),
    ensures
        q.waiting_bound(id) == p.waiting_bound(id),
        q.waits(id),
{
    let i = choose|i: int| 0 <= i < p.entries@.len() && (#[trigger] p.entries@[i]).clause.id == id;
    assert(q.entries@.drop_last()[i] == p.entries@[i]);
    assert(q.entries@[i].clause.id == id);
    assert(q.clauses().drop_last() =~= p.clauses());
}

/// Whether the sets follow each other by choices and additions.
pub open spec fn history(sets: Seq<PassiveSet>) -> bool {
    forall|i: int|
        0 <= i < sets.len() ==> (#[trigger] sets[i]).wf() && (i < sets.len() - 1
            ==> sets[i].chosen(sets[i + 1]) || sets[i].added(sets[i + 1]))
}

/// The number of choices among the first `n` steps of a history.
pub open spec fn choices(sets: Seq<PassiveSet>, n: int) -> nat
    decreases n,
{
    if n <= 0 || n >= sets.len() {
        0
    } else {
        choices(sets, n - 1) + if sets[n - 1].chosen(sets[n]) {
            1nat
        } else {
            0nat
        }
    }
}

/// No clause waits forever: in a history of choices and additions, under
/// any pick ratio, a clause that waits throughout sees fewer choices than
/// its bound at the start. So it is chosen after at most that many choices.
pub proof fn lemma_fairness(sets: Seq<PassiveSet>, id: u64, n: int)
    requires
        history(sets),
        0 <= n < sets.len(),
        forall|i: int| 0 <= i <= n ==> (#[trigger] sets[i]).waits(id),
    ensures
        choices(sets, n) + sets[n].waiting_bound(id) <= sets[0].waiting_bound(id),
        choices(sets, n) < sets[0].waiting_bound(id),
    decreases n,
{
    if n > 0 {
        lemma_fairness(sets, id, n - 1);
        let p = sets[n - 1];
        let q = sets[n];
        assert(p.wf() && (p.chosen(q) || p.added(q)));
        if p.chosen(q) {
            lemma_choice_lowers_bound(p, q, id);
        } else {
            lemma_addition_keeps_bound(p, q, id);
        }
    } else {
        let p = sets[0];
        assert(p.wf());
        lemma_bound_positive(p, id);
    }
}

/// The bound of a clause is at least one where the count of turns is
/// within the ratio.
pub proof fn lemma_bound_positive(p: PassiveSet, id: u64)
    requires
        p.since_age <= p.pick_ratio,
    ensures
        p.waiting_bound(id) >= 1,
{
    let r = p.pick_ratio as int;
    let o = p.older(id) as int;
    assert(o * (r + 1) >= 0) by (nonlinear_arith)
        requires
            o >= 0,
            r >= 0,
    ;
}

} // verus!
