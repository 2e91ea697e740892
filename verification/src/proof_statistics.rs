//! Counters of what a proof search did.
use vstd::prelude::*;

verus! {

/// What a proof search did so far. A counter that reaches the largest
/// number stays there.
#[derive(Debug, Clone, Copy, PartialEq, Eq)]
pub struct ProofStatistics {
    /// The clauses that the search started with.
    pub initial_clauses: u64,
    /// The clauses that were taken from the passive clauses and analyzed.
    pub iterations: u64,
    /// The analyzed clauses that were tautologies.
    pub trivial: u64,
    /// The analyzed clauses that an active clause subsumed.
    pub forward_subsumed: u64,
    /// The analyzed clauses that were neither.
    pub nonredundant_analyzed: u64,
    /// The active clauses that an analyzed clause subsumed.
    pub backward_subsumed: u64,
    /// The clauses that were inferred.
    pub inferred: u64,
    /// Those inferred by superposition.
    pub superposition_inferred: u64,
    /// Those inferred by equality factoring.
    pub equality_factoring_inferred: u64,
    /// Those inferred by equality resolution.
    pub equality_resolution_inferred: u64,
    /// The inferred clauses that became passive clauses.
    pub nontrivial_inferred: u64,
}

/// The sum of two counters, cut off at the largest number.
pub fn count_up(counter: u64, by: usize) -> (r: u64)
    ensures
        r == if counter + by <= u64::MAX {
            (counter + by) as u64
        } else {
            u64::MAX
        },
{
    if by as u64 as usize != by {
        return u64::MAX;
    }
    counter.saturating_add(by as u64)
}

impl ProofStatistics {
    /// Whether the counters are consistent: no more clauses were found
    /// nonredundant than were analyzed, and no more were analyzed than the
    /// search started with or inferred.
    pub open spec fn consistent(&self) -> bool {
        &&& self.nonredundant_analyzed <= self.iterations <= self.initial_clauses + self.inferred
        &&& self.trivial <= self.iterations
        &&& self.forward_subsumed <= self.iterations
    }

    /// Whether no more clauses were found trivial, subsumed or nonredundant
    /// than were analyzed.
    pub open spec fn analyzed_consistent(&self) -> bool {
        &&& self.trivial <= self.iterations
        &&& self.forward_subsumed <= self.iterations
        &&& self.nonredundant_analyzed <= self.iterations
    }

    /// Whether the counters of the analyzed clauses are those of `other`.
    pub open spec fn same_analyzed(&self, other: ProofStatistics) -> bool {
        &&& self.iterations == other.iterations
        &&& self.trivial == other.trivial
        &&& self.forward_subsumed == other.forward_subsumed
        &&& self.nonredundant_analyzed == other.nonredundant_analyzed
    }

    /// Whether the counters are consistent with `passive` clauses waiting:
    /// unless the count of inferred clauses is at the largest number, the
    /// analyzed and the waiting clauses are no more than those that the
    /// search started with or inferred.
    pub open spec fn consistent_with(&self, passive: nat) -> bool {
        &&& self.trivial <= self.iterations
        &&& self.forward_subsumed <= self.iterations
        &&& self.nonredundant_analyzed <= self.iterations
        &&& (self.inferred == u64::MAX || self.iterations + passive <= self.initial_clauses
            + self.inferred)
    }

    /// All counters at zero.
    pub fn new() -> (s: ProofStatistics)
        ensures
            s.consistent_with(0),
            s.initial_clauses == 0,
            s.iterations == 0,
            s.trivial == 0,
            s.forward_subsumed == 0,
            s.nonredundant_analyzed == 0,
            s.backward_subsumed == 0,
            s.inferred == 0,
            s.superposition_inferred == 0,
            s.equality_factoring_inferred == 0,
            s.equality_resolution_inferred == 0,
            s.nontrivial_inferred == 0,
    {
        ProofStatistics {
            initial_clauses: 0,
            iterations: 0,
            trivial: 0,
            forward_subsumed: 0,
            nonredundant_analyzed: 0,
            backward_subsumed: 0,
            inferred: 0,
            superposition_inferred: 0,
            equality_factoring_inferred: 0,
            equality_resolution_inferred: 0,
            nontrivial_inferred: 0,
        }
    }

    /// The initial clauses.
    pub fn get_initial_clauses(&self) -> (n: u64)
        ensures
            n == self.initial_clauses,
    {
        self.initial_clauses
    }

    /// The analyzed clauses.
    pub fn get_iteration_count(&self) -> (n: u64)
        ensures
            n == self.iterations,
    {
        self.iterations
    }

    /// The analyzed clauses that were tautologies.
    pub fn get_trivial_count(&self) -> (n: u64)
        ensures
            n == self.trivial,
    {
        self.trivial
    }

    /// The analyzed clauses that an active clause subsumed.
    pub fn get_forward_subsumed_count(&self) -> (n: u64)
        ensures
            n == self.forward_subsumed,
    {
        self.forward_subsumed
    }

    /// The analyzed clauses that were not redundant.
    pub fn get_nonredundant_analyzed_count(&self) -> (n: u64)
        ensures
            n == self.nonredundant_analyzed,
    {
        self.nonredundant_analyzed
    }

    /// The active clauses that an analyzed clause subsumed.
    pub fn get_backward_subsumed_count(&self) -> (n: u64)
        ensures
            n == self.backward_subsumed,
    {
        self.backward_subsumed
    }

    /// The inferred clauses.
    pub fn get_inferred_count(&self) -> (n: u64)
        ensures
            n == self.inferred,
    {
        self.inferred
    }

    /// The clauses inferred by superposition.
    pub fn get_superposition_inferred_count(&self) -> (n: u64)
        ensures
            n == self.superposition_inferred,
    {
        self.superposition_inferred
    }

    /// The clauses inferred by equality factoring.
    pub fn get_equality_factoring_inferred_count(&self) -> (n: u64)
        ensures
            n == self.equality_factoring_inferred,
    {
        self.equality_factoring_inferred
    }

    /// The clauses inferred by equality resolution.
    pub fn get_equality_resolution_inferred_count(&self) -> (n: u64)
        ensures
            n == self.equality_resolution_inferred,
    {
        self.equality_resolution_inferred
    }

    /// The inferred clauses that became passive clauses.
    pub fn get_nontrivial_inferred_count(&self) -> (n: u64)
        ensures
            n == self.nontrivial_inferred,
    {
        self.nontrivial_inferred
    }
}

/// Counters that are consistent with the waiting clauses are consistent.
pub proof fn lemma_consistent(s: ProofStatistics, passive: nat)
    requires
        s.consistent_with(passive),
    ensures
        s.consistent(),
{
}

} // verus!
