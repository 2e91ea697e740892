//! Clauses: disjunctions of literals.
use crate::literal::{Literal, LiteralV};
use crate::substitution::Substitution;
use crate::term::{clip, SubstV};
use vstd::prelude::*;

verus! {

/// The mathematical value of a clause: its literals in order.
pub type ClauseV = Seq<LiteralV>;

/// The instance of a clause under a substitution.
pub open spec fn apply_clause(c: ClauseV, s: SubstV) -> ClauseV {
    Seq::new(c.len(), |i: int| c[i].apply(s))
}

/// Whether some literal of the clause denotes the given literal.
pub open spec fn has_literal(c: ClauseV, l: LiteralV) -> bool {
    exists|i: int| 0 <= i < c.len() && (#[trigger] c[i]).same(l)
}

/// Whether the variable `x` occurs in the clause.
pub open spec fn clause_occurs(c: ClauseV, x: int) -> bool {
    exists|i: int| 0 <= i < c.len() && (#[trigger] c[i]).occurs(x)
}

/// The weighted number of symbols of a clause.
pub open spec fn clause_weighted_size(c: ClauseV, f: nat, v: nat) -> nat
    decreases c.len(),
{
    if c.len() == 0 {
        0
    } else {
        c.last().weighted_size(f, v) + clause_weighted_size(c.drop_last(), f, v)
    }
}

/// The views of a sequence of literals.
pub open spec fn literal_views(ls: Seq<Literal>) -> ClauseV {
    Seq::new(ls.len(), |i: int| ls[i]@)
}

/// A single clause.
#[derive(Debug)]
pub struct Clause {
    pub id: u64,
    pub literals: Vec<Literal>,
}

impl View for Clause {
    type V = ClauseV;

    open spec fn view(&self) -> ClauseV {
        literal_views(self.literals@)
    }
}

impl Clause {
    /// Creates an empty clause.
    pub fn new() -> (c: Clause)
        ensures
            c@ == Seq::<LiteralV>::empty(),
            c.id == 0,
    {
        let c = Clause { id: 0, literals: Vec::new() };
        proof {
            assert(c@ =~= Seq::<LiteralV>::empty());
        }
        c
    }

    /// Creates a new clause from a vector of literals.
    pub fn new_from_vec(lits: Vec<Literal>) -> (c: Clause)
        ensures
            c@ == literal_views(lits@),
            c.id == 0,
    {
        Clause { id: 0, literals: lits }
    }

    /// Used for checking whether a clause is empty.
    pub fn is_empty(&self) -> (r: bool)
        ensures
            r == (self@.len() == 0),
    {
        self.literals.len() == 0
    }

    /// Used for iterating the literals of the clause.
    pub fn iter(&self) -> (it: std::slice::Iter<'_, Literal>)
        ensures
            vstd::std_specs::slice::into_iter_elts(it) == self.literals@,
    {
        broadcast use vstd::std_specs::slice::axiom_spec_slice_iter;

        let it = self.literals.as_slice().iter();
        proof {
            assert(vstd::std_specs::slice::into_iter_elts(it) =~= self.literals@);
        }
        it
    }

    /// The number of literals.
    pub fn size(&self) -> (n: usize)
        ensures
            n == self@.len(),
    {
        self.literals.len()
    }

    /// The `i`-th literal.
    pub fn at(&self, i: usize) -> (l: &Literal)
        requires
            i < self@.len(),
        ensures
            l@ == self@[i as int],
    {
        &self.literals[i]
    }

    /// The identifier of the clause; clauses made later have larger ones.
    pub fn get_id(&self) -> (id: u64)
        ensures
            id == self.id,
    {
        self.id
    }

    /// Gives the clause its identifier.
    pub fn set_id(&mut self, id: u64)
        ensures
            final(self).id == id,
            final(self)@ == old(self)@,
    {
        self.id = id;
    }

    /// Adds a literal at the end.
    pub fn add_literal(&mut self, l: Literal)
        ensures
            final(self)@ == old(self)@.push(l@),
            final(self).id == old(self).id,
    {
        self.literals.push(l);
        proof {
            assert(self@ =~= old(self)@.push(l@));
        }
    }

    /// Adds the literals of another clause at the end.
    pub fn add_literals(&mut self, other: Clause)
        ensures
            final(self)@ == old(self)@ + other@,
            final(self).id == old(self).id,
    {
        let mut other = other;
        let ghost o = other@;
        self.literals.append(&mut other.literals);
        proof {
            assert(self@ =~= old(self)@ + o);
        }
    }

    /// Removes the `i`-th literal and puts the last one in its place.
    pub fn swap_remove(&mut self, i: usize) -> (l: Literal)
        requires
            i < old(self)@.len(),
        ensures
            l@ == old(self)@[i as int],
            final(self)@ == old(self)@.update(i as int, old(self)@.last()).drop_last(),
            final(self).id == old(self).id,
    {
        let l = self.literals.swap_remove(i);
        proof {
            assert(self@ =~= old(self)@.update(i as int, old(self)@.last()).drop_last());
        }
        l
    }

    /// Removes the `i`-th literal; the others keep their order.
    pub fn remove(&mut self, i: usize) -> (l: Literal)
        requires
            i < old(self)@.len(),
        ensures
            l@ == old(self)@[i as int],
            final(self)@ == old(self)@.remove(i as int),
            final(self).id == old(self).id,
    {
        let l = self.literals.remove(i);
        proof {
            assert(self@ =~= old(self)@.remove(i as int));
        }
        l
    }

    /// The instance of the clause under a substitution.
    pub fn apply(&self, sigma: &Substitution) -> (c: Clause)
        ensures
            c@ == apply_clause(self@, sigma@),
            c.id == self.id,
    {
        let mut lits: Vec<Literal> = Vec::new();
        let n = self.literals.len();
        let mut i: usize = 0;
        while i < n
            invariant
                0 <= i <= n,
                n == self.literals.len(),
                lits.len() == i,
                forall|j: int| 0 <= j < i ==> lits[j]@ == self.literals[j]@.apply(sigma@),
            decreases n - i,
        {
            lits.push(self.literals[i].apply(sigma));
            i += 1;
        }
        let c = Clause { id: self.id, literals: lits };
        proof {
            assert(c@ =~= apply_clause(self@, sigma@));
        }
        c
    }

    /// Replaces the clause by its instance under a substitution.
    pub fn subst(&mut self, sigma: &Substitution)
        ensures
            final(self)@ == apply_clause(old(self)@, sigma@),
            final(self).id == old(self).id,
    {
        let c = self.apply(sigma);
        *self = c;
    }

    /// The number of symbols of the clause, each function symbol counted as
    /// `f_value` and each variable as `v_value`, cut off at the largest number.
    pub fn symbol_count(&self, f_value: u64, v_value: u64) -> (n: u64)
        ensures
            n == clip(clause_weighted_size(self@, f_value as nat, v_value as nat)),
    {
        let len = self.literals.len();
        let mut total: u64 = 0;
        let mut i: usize = 0;
        while i < len
            invariant
                0 <= i <= len,
                len == self.literals.len(),
                total == clip(
                    clause_weighted_size(self@.take(i as int), f_value as nat, v_value as nat),
                ),
            decreases len - i,
        {
            let c = self.literals[i].symbol_count(f_value, v_value);
            proof {
                assert(self@.take(i as int + 1).drop_last() =~= self@.take(i as int));
                assert(self@.take(i as int + 1).last() == self.literals[i as int]@);
            }
            total = total.saturating_add(c);
            i += 1;
        }
        proof {
            assert(self@.take(len as int) =~= self@);
        }
        total
    }

    /// Whether both clauses hold the same literals in the same order.
    pub fn equals(&self, other: &Clause) -> (r: bool)
        ensures
            r == same_clause(self@, other@),
    {
        if self.literals.len() != other.literals.len() {
            return false;
        }
        let n = self.literals.len();
        let mut i: usize = 0;
        while i < n
            invariant
                0 <= i <= n,
                n == self.literals.len(),
                n == other.literals.len(),
                forall|j: int| 0 <= j < i ==> (#[trigger] self@[j]).same(other@[j]),
            decreases n - i,
        {
            if !self.literals[i].equals(&other.literals[i]) {
                proof {
                    assert(!self@[i as int].same(other@[i as int]));
                }
                return false;
            }
            i += 1;
        }
        true
    }
}

/// Whether both clauses hold the same literals in the same order.
pub open spec fn same_clause(c: ClauseV, d: ClauseV) -> bool {
    &&& c.len() == d.len()
    &&& forall|i: int| 0 <= i < c.len() ==> (#[trigger] c[i]).same(d[i])
}

impl Clone for Clause {
    fn clone(&self) -> (c: Clause)
        ensures
            c@ == self@,
            c.id == self.id,
    {
        let mut lits: Vec<Literal> = Vec::new();
        let n = self.literals.len();
        let mut i: usize = 0;
        while i < n
            invariant
                0 <= i <= n,
                n == self.literals.len(),
                lits.len() == i,
                forall|j: int| 0 <= j < i ==> lits[j]@ == self.literals[j]@,
            decreases n - i,
        {
            lits.push(self.literals[i].clone());
            i += 1;
        }
        let c = Clause { id: self.id, literals: lits };
        proof {
            assert(c@ =~= self@);
        }
        c
    }
}

impl PartialEq for Clause {
    fn eq(&self, other: &Clause) -> (r: bool) {
        self.equals(other)
    }
}

impl vstd::std_specs::cmp::PartialEqSpecImpl for Clause {
    open spec fn obeys_eq_spec() -> bool {
        true
    }

    open spec fn eq_spec(&self, other: &Clause) -> bool {
        same_clause(self@, other@)
    }
}

} // verus!
