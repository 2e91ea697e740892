//! The weights by which passive clauses are chosen.
use crate::clause::{clause_weighted_size, Clause};
use crate::term::clip;
use vstd::prelude::*;

verus! {

/// The weight of a clause in one of the two queues.
#[derive(PartialEq, Eq, Structural, Debug, Clone, Copy)]
pub enum ClauseWeight {
    /// Based on the size of the clause.
    /// Contains the ID and the symbol count of the clause.
    Size(u64, u64),
    /// Based on the age of the clause. Contains the ID of the clause.
    Age(u64),
}

impl ClauseWeight {
    /// The ID of the clause that the weight belongs to.
    pub open spec fn id(self) -> u64 {
        match self {
            ClauseWeight::Size(id, _) => id,
            ClauseWeight::Age(id) => id,
        }
    }

    /// Whether both weights are of the same kind.
    pub open spec fn same_kind(self, other: ClauseWeight) -> bool {
        (self is Size) == (other is Size)
    }

    /// Whether a clause of this weight is chosen before one of the other
    /// weight: by size, the smaller symbol count and, among equal counts, the
    /// smaller ID; by age, the smaller ID. Weights of different kinds are not
    /// compared.
    pub open spec fn preferred(self, other: ClauseWeight) -> bool {
        match (self, other) {
            (ClauseWeight::Size(id1, w1), ClauseWeight::Size(id2, w2)) => w1 < w2 || (w1 == w2
                && id1 < id2),
            (ClauseWeight::Age(id1), ClauseWeight::Age(id2)) => id1 < id2,
            _ => false,
        }
    }

    /// Creates a new weight based on the symbol count of the clause.
    /// The variable 'f_value' is the value to give to function symbols.
    /// Then 'v_value' is just the value to give to variables.
    pub fn new_size_weight(cl: &Clause, f_value: u64, v_value: u64) -> (w: ClauseWeight)
        ensures
            w == ClauseWeight::Size(
                cl.id,
                clip(clause_weighted_size(cl@, f_value as nat, v_value as nat)),
            ),
    {
        ClauseWeight::Size(cl.get_id(), cl.symbol_count(f_value, v_value))
    }

    /// Creates a new weight based on the age of the clause.
    pub fn new_age_weight(clause: &Clause) -> (w: ClauseWeight)
        ensures
            w == ClauseWeight::Age(clause.id),
    {
        ClauseWeight::Age(clause.get_id())
    }

    /// Get the ID of the clause a particular clause weight is associated with.
    pub fn get_id(&self) -> (id: u64)
        ensures
            id == self.id(),
    {
        match *self {
            ClauseWeight::Size(id, _) | ClauseWeight::Age(id) => id,
        }
    }

    /// Whether a clause of this weight is chosen before one of the other
    /// weight. Mixing the two kinds of weight in one comparison is an error.
    pub fn precedes(&self, other: &ClauseWeight) -> (r: bool)
        requires
            self.same_kind(*other),
        ensures
            r == self.preferred(*other),
    {
        match (*self, *other) {
            (ClauseWeight::Size(id1, weight1), ClauseWeight::Size(id2, weight2)) => weight1
                < weight2 || (weight1 == weight2 && id1 < id2),
            (ClauseWeight::Age(id1), ClauseWeight::Age(id2)) => id1 < id2,
            _ => false,
        }
    }
}

/// Preference is a strict order: no weight is preferred to itself, and
/// preference carries over.
pub proof fn lemma_preferred_order(a: ClauseWeight, b: ClauseWeight, c: ClauseWeight)
    ensures
        !a.preferred(a),
        a.preferred(b) && b.preferred(c) ==> a.preferred(c),
        a.preferred(b) ==> !b.preferred(a),
        a.same_kind(b) && a.id() != b.id() ==> a.preferred(b) || b.preferred(a),
{
}

} // verus!
