//! Substitutions: finite maps from variables to terms.
use crate::term::{SubstV, Term, TermV};
use std::collections::HashMap;
use vstd::prelude::*;
use vstd::std_specs::hash::*;
use vstd::std_specs::iter::IteratorSpec;

verus! {

broadcast use vstd::std_specs::hash::group_hash_axioms;

/// Represents a substitution from variables to terms.
#[derive(Debug)]
pub struct Substitution {
    pub subst: HashMap<i64, Term>,
}

impl View for Substitution {
    type V = SubstV;

    open spec fn view(&self) -> SubstV {
        Map::new(
            |x: int| i64::MIN <= x <= i64::MAX && self.subst@.contains_key(x as i64),
            |x: int| self.subst@[x as i64]@,
        )
    }
}

/// The domain of a substitution is finite and as large as its table.
proof fn lemma_domain_size(s: &Substitution)
    ensures
        s@.dom().finite(),
        s@.dom().len() == s.subst@.dom().len(),
{
    let f = |k: i64| k as int;
    assert(s.subst@.dom().map(f) =~= s@.dom()) by {
        assert forall|x: int| s@.dom().contains(x) implies s.subst@.dom().map(f).contains(x) by {
            assert(s.subst@.dom().contains(x as i64) && f(x as i64) == x);
        }
    }
    vstd::set_lib::lemma_map_size(s.subst@.dom(), s@.dom(), f);
}

impl Substitution {
    /// Creates an empty substitution.
    pub fn new() -> (s: Substitution)
        ensures
            s@ == Map::<int, TermV>::empty(),
    {
        let s = Substitution { subst: HashMap::new() };
        proof {
            assert(s@ =~= Map::<int, TermV>::empty());
        }
        s
    }

    /// Used for getting the size of the substitution.
    pub fn size(&self) -> (n: usize)
        ensures
            self@.dom().finite(),
            n == self@.dom().len(),
    {
        proof {
            lemma_domain_size(self);
        }
        self.subst.len()
    }

    /// Inserts a new mapping from a variable to a term to the substitution.
    pub fn insert(&mut self, id: i64, t: Term)
        requires
            id < 0,
            !old(self)@.dom().contains(id as int),
        ensures
            final(self)@ == old(self)@.insert(id as int, t@),
    {
        let ghost before = self@;
        let ghost tv = t@;
        self.subst.insert(id, t);
        proof {
            assert(self@ =~= before.insert(id as int, tv));
        }
    }

    /// Binds the identifier `id`, whatever its sign, to a term.
    pub fn bind(&mut self, id: i64, t: Term)
        requires
            !old(self)@.dom().contains(id as int),
        ensures
            final(self)@ == old(self)@.insert(id as int, t@),
    {
        let ghost before = self@;
        let ghost tv = t@;
        self.subst.insert(id, t);
        proof {
            assert(self@ =~= before.insert(id as int, tv));
        }
    }

    /// The image of the identifier `id`, if it is bound.
    pub fn image(&self, id: i64) -> (r: Option<&Term>)
        ensures
            match r {
                Some(u) => self@.dom().contains(id as int) && u@ == self@[id as int],
                None => !self@.dom().contains(id as int),
            },
    {
        self.subst.get(&id)
    }

    /// Get an (optional) reference to the term which is to be substituted for a given variable.
    pub fn get(&self, t: &Term) -> (r: Option<&Term>)
        ensures
            match r {
                Some(u) => t@ is Var && self@.dom().contains(t@.id()) && u@ == self@[t@.id()],
                None => !(t@ is Var && self@.dom().contains(t@.id())),
            },
    {
        if t.id < 0 {
            self.subst.get(&t.id)
        } else {
            None
        }
    }

    /// Checks if the substitution is a variable renaming: every image is a variable.
    pub fn is_variable_renaming(&self) -> (r: bool)
        ensures
            r == forall|x: int| self@.dom().contains(x) ==> (#[trigger] self@[x]) is Var,
    {
        let ghost all = spec_hash_map_iter(&self.subst).remaining();
        let mut r = true;
        for kv in it: self.subst.iter()
            invariant
                it.seq() == all,
                r == forall|i: int| 0 <= i < it.index() ==> (*(#[trigger] all[i]).1)@ is Var,
        {
            if !kv.1.is_variable() {
                r = false;
            }
        }
        proof {
            if r {
                assert forall|x: int| self@.dom().contains(x) implies (#[trigger] self@[x]) is Var by {
                    let key = x as i64;
                    assert(self.subst@.contains_key(key));
                    assert(all.contains((&key, &self.subst@[key])));
                    let i = choose|i: int| 0 <= i < all.len() && all[i] == (&key, &self.subst@[key]);
                    assert((*all[i].1)@ is Var);
                }
            } else {
                let i = choose|i: int| 0 <= i < all.len() && !((*(#[trigger] all[i]).1)@ is Var);
                let x = *all[i].0 as int;
                assert(self.subst@.contains_key(*all[i].0) && self.subst@[*all[i].0] == *all[i].1);
                assert(self@.dom().contains(x) && !(self@[x] is Var));
            }
        }
        r
    }

    /// Replaces each image by its instance under `sigma`; the domain stays
    /// as it is.
    pub fn map_images(&mut self, sigma: &Substitution)
        ensures
            final(self)@.dom() == old(self)@.dom(),
            forall|x: int|
                old(self)@.dom().contains(x) ==> #[trigger] final(self)@[x] == old(self)@[x].apply(
                    sigma@,
                ),
    {
        let ghost all = spec_hash_map_iter(&self.subst).remaining();
        let mut images: HashMap<i64, Term> = HashMap::new();
        for kv in it: self.subst.iter()
            invariant
                it.seq() == all,
                forall|i: int|
                    0 <= i < it.index() ==> images@.contains_key(*(#[trigger] all[i]).0)
                        && images@[*all[i].0]@ == (*all[i].1)@.apply(sigma@),
                forall|k: i64|
                    #[trigger] images@.contains_key(k) ==> exists|i: int|
                        0 <= i < it.index() && *(#[trigger] all[i]).0 == k,
        {
            let ghost before = images@;
            let ghost n = it.index();
            let image = sigma.apply(kv.1);
            images.insert(*kv.0, image);
            proof {
                assert forall|i: int| 0 <= i < n + 1 implies images@.contains_key(
                    *(#[trigger] all[i]).0,
                ) && images@[*all[i].0]@ == (*all[i].1)@.apply(sigma@) by {
                    if i < n && *all[i].0 == *all[n].0 {
                        assert(self.subst@[*all[i].0] == *all[i].1);
                        assert(self.subst@[*all[n].0] == *all[n].1);
                    }
                }
                assert forall|k: i64| #[trigger] images@.contains_key(k) implies exists|i: int|
                    0 <= i < n + 1 && *(#[trigger] all[i]).0 == k by {
                    if k == *all[n].0 {
                        assert(*all[n].0 == k);
                    } else {
                        assert(before.contains_key(k));
                        let i = choose|i: int| 0 <= i < n && *(#[trigger] all[i]).0 == k;
                        assert(0 <= i < n + 1 && *all[i].0 == k);
                    }
                }
            }
        }
        let ghost old_map = self.subst@;
        proof {
            assert forall|k: i64| old_map.contains_key(k) implies images@.contains_key(k)
                && images@[k]@ == old_map[k]@.apply(sigma@) by {
                assert(all.contains((&k, &old_map[k])));
                let i = choose|i: int| 0 <= i < all.len() && all[i] == (&k, &old_map[k]);
                assert(images@.contains_key(*all[i].0));
            }
            assert forall|k: i64| images@.contains_key(k) implies old_map.contains_key(k) by {
                let i = choose|i: int| 0 <= i < all.len() && *(#[trigger] all[i]).0 == k;
                assert(old_map.contains_key(*all[i].0));
            }
        }
        self.subst = images;
        proof {
            assert(self@.dom() =~= old(self)@.dom());
        }
    }

    /// Whether a variable is in the domain.
    pub fn binds(&self, id: i64) -> (r: bool)
        ensures
            r == self@.dom().contains(id as int),
    {
        self.subst.contains_key(&id)
    }

    /// The instance of a term under the substitution.
    pub fn apply(&self, t: &Term) -> (r: Term)
        ensures
            r@ == t@.apply(self@),
        decreases t,
    {
        if t.id < 0 {
            return match self.subst.get(&t.id) {
                Some(u) => u.clone(),
                None => Term { id: t.id, predicate: false, args: Vec::new() },
            };
        }
        let n = t.args.len();
        let mut args: Vec<Term> = Vec::new();
        let mut i: usize = 0;
        while i < n
            invariant
                0 <= i <= n,
                n == t.args.len(),
                t.id >= 0,
                args.len() == i,
                forall|j: int| 0 <= j < i ==> args[j]@ == t.args[j]@.apply(self@),
            decreases n - i,
        {
            args.push(self.apply(&t.args[i]));
            i += 1;
        }
        let r = Term { id: t.id, predicate: t.predicate, args };
        proof {
            assert(r@.args() =~= t@.apply(self@).args());
        }
        r
    }
}

impl Term {
    /// Replaces the term by its instance under the substitution.
    pub fn subst(&mut self, sigma: &Substitution)
        ensures
            final(self)@ == old(self)@.apply(sigma@),
    {
        let r = sigma.apply(self);
        *self = r;
    }
}

impl Clone for Substitution {
    fn clone(&self) -> (r: Substitution)
        ensures
            r@ == self@,
    {
        let r = Substitution { subst: self.subst.clone() };
        proof {
            assert(r@ =~= self@);
        }
        r
    }
}

impl Default for Substitution {
    fn default() -> (s: Substitution)
        ensures
            s@ == Map::<int, TermV>::empty(),
    {
        Substitution::new()
    }
}

} // verus!
