//! First-order terms and their mathematical model.
use vstd::prelude::*;

verus! {

/// The mathematical value of a term: a variable, or a symbol applied to
/// arguments. A symbol is determined by its identifier, its sort (function or
/// predicate) and the number of its arguments.
pub enum TermV {
    Var(int),
    Fun(int, bool, Seq<TermV>),
}

/// A substitution as a mathematical object: a finite map from variables to terms.
pub type SubstV = Map<int, TermV>;

impl TermV {
    /// The arguments of the term; a variable has none.
    pub open spec fn args(self) -> Seq<TermV> {
        match self {
            TermV::Var(_) => Seq::empty(),
            TermV::Fun(_, _, args) => args,
        }
    }

    /// The identifier of a variable or of the head symbol.
    pub open spec fn id(self) -> int {
        match self {
            TermV::Var(x) => x,
            TermV::Fun(f, _, _) => f,
        }
    }

    /// Whether the head symbol is of predicate sort.
    pub open spec fn predicate(self) -> bool {
        match self {
            TermV::Var(_) => false,
            TermV::Fun(_, p, _) => p,
        }
    }

    /// Whether two terms have the same head symbol (identifier, sort and arity).
    pub open spec fn same_head(self, other: TermV) -> bool {
        &&& self is Fun
        &&& other is Fun
        &&& self.id() == other.id()
        &&& self.predicate() == other.predicate()
        &&& self.args().len() == other.args().len()
    }

    /// The number of symbol and variable occurrences.
    pub open spec fn size(self) -> nat
        decreases self,
    {
        match self {
            TermV::Var(_) => 1,
            TermV::Fun(_, _, args) => 1 + size_sum(args),
        }
    }

    /// Whether the variable `x` occurs in the term.
    pub open spec fn occurs(self, x: int) -> bool
        decreases self,
    {
        match self {
            TermV::Var(y) => x == y,
            TermV::Fun(_, _, args) => exists|i: int|
                0 <= i < args.len() && (#[trigger] args[i]).occurs(x),
        }
    }

    /// The number of occurrences of the variable `x`.
    pub open spec fn count(self, x: int) -> nat
        decreases self,
    {
        match self {
            TermV::Var(y) => if x == y { 1 } else { 0 },
            TermV::Fun(_, _, args) => count_sum(args, x),
        }
    }

    /// Whether `u` is a subterm of the term (the term itself included).
    pub open spec fn has_subterm(self, u: TermV) -> bool
        decreases self,
    {
        self == u || match self {
            TermV::Var(_) => false,
            TermV::Fun(_, _, args) => exists|i: int|
                0 <= i < args.len() && (#[trigger] args[i]).has_subterm(u),
        }
    }

    /// The term with every variable of the domain of `s` replaced by its image.
    pub open spec fn apply(self, s: SubstV) -> TermV
        decreases self,
    {
        match self {
            TermV::Var(x) => if s.dom().contains(x) { s[x] } else { self },
            TermV::Fun(f, p, args) => TermV::Fun(
                f,
                p,
                Seq::new(
                    args.len(),
                    |i: int| if 0 <= i < args.len() { args[i].apply(s) } else { TermV::Var(0) },
                ),
            ),
        }
    }

    /// The term with every occurrence of the variable `x` replaced by `t`.
    pub open spec fn replace(self, x: int, t: TermV) -> TermV {
        self.apply(Map::<int, TermV>::empty().insert(x, t))
    }
}

/// The sum of the sizes of the terms of a sequence.
pub open spec fn size_sum(ts: Seq<TermV>) -> nat
    decreases ts,
{
    if ts.len() == 0 {
        0
    } else {
        ts.last().size() + size_sum(ts.drop_last())
    }
}

/// The number of occurrences of `x` in the terms of a sequence.
pub open spec fn count_sum(ts: Seq<TermV>, x: int) -> nat
    decreases ts,
{
    if ts.len() == 0 {
        0
    } else {
        ts.last().count(x) + count_sum(ts.drop_last(), x)
    }
}

/// The views of a sequence of terms.
pub open spec fn views(ts: Seq<Term>) -> Seq<TermV> {
    Seq::new(ts.len(), |i: int| ts[i]@)
}

/// The composition of two substitutions: first `s`, then `t`.
pub open spec fn compose(s: SubstV, t: SubstV) -> SubstV {
    Map::new(
        |x: int| s.dom().contains(x) || t.dom().contains(x),
        |x: int| TermV::Var(x).apply(s).apply(t),
    )
}

/// Each term of a sequence is no larger than the sum of all sizes.
pub proof fn lemma_size_sum_index(ts: Seq<TermV>, i: int)
    requires
        0 <= i < ts.len(),
    ensures
        ts[i].size() <= size_sum(ts),
    decreases ts.len(),
{
    if i < ts.len() - 1 {
        lemma_size_sum_index(ts.drop_last(), i);
    }
}

/// Pointwise smaller sizes give a smaller sum.
pub proof fn lemma_size_sum_mono(a: Seq<TermV>, b: Seq<TermV>)
    requires
        a.len() == b.len(),
        forall|i: int| 0 <= i < a.len() ==> (#[trigger] a[i]).size() <= b[i].size(),
    ensures
        size_sum(a) <= size_sum(b),
    decreases a.len(),
{
    if a.len() > 0 {
        assert(a.last().size() <= b[a.len() - 1].size());
        lemma_size_sum_mono(a.drop_last(), b.drop_last());
    }
}

/// The occurrences of a variable in one term of a sequence are among those of all.
pub proof fn lemma_count_sum_index(ts: Seq<TermV>, x: int, i: int)
    requires
        0 <= i < ts.len(),
    ensures
        ts[i].count(x) <= count_sum(ts, x),
    decreases ts.len(),
{
    if i < ts.len() - 1 {
        lemma_count_sum_index(ts.drop_last(), x, i);
    }
}

/// A sequence in which `x` does not occur counts no occurrence, and conversely.
pub proof fn lemma_count_sum_zero(ts: Seq<TermV>, x: int)
    ensures
        count_sum(ts, x) == 0 <==> forall|i: int| 0 <= i < ts.len() ==> (#[trigger] ts[i]).count(x) == 0,
    decreases ts.len(),
{
    if ts.len() > 0 {
        lemma_count_sum_zero(ts.drop_last(), x);
        if count_sum(ts, x) == 0 {
            assert forall|i: int| 0 <= i < ts.len() implies (#[trigger] ts[i]).count(x) == 0 by {
                if i < ts.len() - 1 {
                    assert(ts.drop_last()[i] == ts[i]);
                }
            }
        } else {
            if ts.last().count(x) == 0 {
                let j = choose|j: int|
                    0 <= j < ts.drop_last().len() && (#[trigger] ts.drop_last()[j]).count(x) != 0;
                assert(ts[j] == ts.drop_last()[j]);
            }
        }
    }
}

/// A variable occurs in a term exactly when it is counted there.
pub proof fn lemma_count_occurs(t: TermV, x: int)
    ensures
        t.occurs(x) <==> t.count(x) > 0,
    decreases t,
{
    match t {
        TermV::Var(_) => {},
        TermV::Fun(_, _, args) => {
            lemma_count_sum_zero(args, x);
            assert forall|i: int| 0 <= i < args.len() implies ((#[trigger] args[i]).occurs(x) <==> args[i].count(x)
                > 0) by {
                lemma_count_occurs(args[i], x);
            }
        },
    }
}

/// The empty substitution changes nothing.
pub proof fn lemma_apply_empty(t: TermV)
    ensures
        t.apply(Map::empty()) == t,
    decreases t,
{
    match t {
        TermV::Var(_) => {},
        TermV::Fun(f, p, args) => {
            assert forall|i: int| 0 <= i < args.len() implies (#[trigger] args[i]).apply(Map::empty())
                == args[i] by {
                lemma_apply_empty(args[i]);
            }
            assert(t.apply(Map::empty()).args() =~= args);
        },
    }
}

/// Two substitutions that agree on the variables of a term give the same instance.
pub proof fn lemma_apply_agree(t: TermV, s1: SubstV, s2: SubstV)
    requires
        forall|x: int| t.occurs(x) ==> TermV::Var(x).apply(s1) == TermV::Var(x).apply(s2),
    ensures
        t.apply(s1) == t.apply(s2),
    decreases t,
{
    match t {
        TermV::Var(x) => {
            assert(t.occurs(x));
        },
        TermV::Fun(f, p, args) => {
            assert forall|i: int| 0 <= i < args.len() implies (#[trigger] args[i]).apply(s1)
                == args[i].apply(s2) by {
                assert forall|x: int| args[i].occurs(x) implies TermV::Var(x).apply(s1) == TermV::Var(
                    x,
                ).apply(s2) by {
                    assert(t.occurs(x));
                }
                lemma_apply_agree(args[i], s1, s2);
            }
            assert(t.apply(s1).args() =~= t.apply(s2).args());
        },
    }
}

/// A substitution whose domain holds no variable of a term leaves the term as it is.
pub proof fn lemma_apply_fixed(t: TermV, s: SubstV)
    requires
        forall|x: int| t.occurs(x) ==> !s.dom().contains(x),
    ensures
        t.apply(s) == t,
{
    assert forall|x: int| t.occurs(x) implies TermV::Var(x).apply(s) == TermV::Var(x).apply(
        Map::empty(),
    ) by {}
    lemma_apply_agree(t, s, Map::empty());
    lemma_apply_empty(t);
}

/// Applying two substitutions in turn is applying their composition.
pub proof fn lemma_apply_compose(t: TermV, s1: SubstV, s2: SubstV)
    ensures
        t.apply(s1).apply(s2) == t.apply(compose(s1, s2)),
    decreases t,
{
    match t {
        TermV::Var(x) => {},
        TermV::Fun(f, p, args) => {
            assert forall|i: int| 0 <= i < args.len() implies (#[trigger] args[i]).apply(s1).apply(s2)
                == args[i].apply(compose(s1, s2)) by {
                lemma_apply_compose(args[i], s1, s2);
            }
            assert(t.apply(s1).apply(s2).args() =~= t.apply(compose(s1, s2)).args());
        },
    }
}

/// The variables of an instance are those of the images of the term's variables.
pub proof fn lemma_occurs_apply(t: TermV, s: SubstV, y: int)
    ensures
        t.apply(s).occurs(y) <==> exists|x: int| t.occurs(x) && (#[trigger] TermV::Var(x).apply(s)).occurs(y),
    decreases t,
{
    match t {
        TermV::Var(x) => {
            if t.apply(s).occurs(y) {
                assert(t.occurs(x) && TermV::Var(x).apply(s).occurs(y));
            }
        },
        TermV::Fun(f, p, args) => {
            let inst = t.apply(s).args();
            assert forall|i: int| 0 <= i < args.len() implies (inst[i].occurs(y) <==> exists|x: int|
                (#[trigger] args[i]).occurs(x) && (#[trigger] TermV::Var(x).apply(s)).occurs(y)) by {
                lemma_occurs_apply(args[i], s, y);
            }
            if t.apply(s).occurs(y) {
                let i = choose|i: int| 0 <= i < inst.len() && (#[trigger] inst[i]).occurs(y);
                let x = choose|x: int| args[i].occurs(x) && (#[trigger] TermV::Var(x).apply(s)).occurs(y);
                assert(t.occurs(x));
            }
            if exists|x: int| t.occurs(x) && (#[trigger] TermV::Var(x).apply(s)).occurs(y) {
                let x = choose|x: int| t.occurs(x) && (#[trigger] TermV::Var(x).apply(s)).occurs(y);
                let i = choose|i: int| 0 <= i < args.len() && (#[trigger] args[i]).occurs(x);
                assert(inst[i].occurs(y));
            }
        },
    }
}

/// The image of a variable of a term is no larger than the instance of the
/// term, and smaller where the term is not that variable.
pub proof fn lemma_size_occurs(t: TermV, x: int, s: SubstV)
    requires
        t.occurs(x),
    ensures
        TermV::Var(x).apply(s).size() <= t.apply(s).size(),
        t is Fun ==> TermV::Var(x).apply(s).size() < t.apply(s).size(),
    decreases t,
{
    match t {
        TermV::Var(_) => {},
        TermV::Fun(f, p, args) => {
            let i = choose|i: int| 0 <= i < args.len() && (#[trigger] args[i]).occurs(x);
            lemma_size_occurs(args[i], x, s);
            let inst = t.apply(s).args();
            assert(inst[i] == args[i].apply(s));
            lemma_size_sum_index(inst, i);
        },
    }
}

/// A first-order term. A negative identifier denotes a variable, whose
/// arguments and sort are not looked at.
#[derive(Debug)]
pub struct Term {
    pub id: i64,
    pub predicate: bool,
    pub args: Vec<Term>,
}

impl View for Term {
    type V = TermV;

    open spec fn view(&self) -> TermV
        decreases self,
    {
        if self.id < 0 {
            TermV::Var(self.id as int)
        } else {
            TermV::Fun(
                self.id as int,
                self.predicate,
                Seq::new(
                    self.args.len() as nat,
                    |i: int| if 0 <= i < self.args.len() { self.args[i]@ } else { TermV::Var(0) },
                ),
            )
        }
    }
}

/// The view of the reserved truth constant.
pub open spec fn truth() -> TermV {
    TermV::Fun(0, true, Seq::empty())
}

impl Term {
    /// A term with the given identifier, sort and arguments.
    pub fn new(id: i64, predicate: bool, args: Vec<Term>) -> (t: Term)
        ensures
            t.id == id,
            t.predicate == predicate,
            t.args == args,
            id < 0 ==> t@ == TermV::Var(id as int),
            id >= 0 ==> t@ == TermV::Fun(id as int, predicate, views(args@)),
    {
        let t = Term { id, predicate, args };
        proof {
            if id >= 0 {
                assert(t@.args() =~= views(args@));
            }
        }
        t
    }

    /// The variable with the given identifier.
    pub fn new_variable(id: i64) -> (t: Term)
        requires
            id < 0,
        ensures
            t@ == TermV::Var(id as int),
    {
        Term { id, predicate: false, args: Vec::new() }
    }

    /// The application of a function symbol to arguments.
    pub fn new_function(id: i64, args: Vec<Term>) -> (t: Term)
        requires
            id >= 0,
        ensures
            t@ == TermV::Fun(id as int, false, views(args@)),
    {
        Term::new(id, false, args)
    }

    /// The application of a predicate symbol to arguments.
    pub fn new_special_function(id: i64, args: Vec<Term>) -> (t: Term)
        requires
            id >= 0,
        ensures
            t@ == TermV::Fun(id as int, true, views(args@)),
    {
        Term::new(id, true, args)
    }

    /// The reserved truth constant.
    pub fn new_truth() -> (t: Term)
        ensures
            t@ == truth(),
    {
        let t = Term { id: 0, predicate: true, args: Vec::new() };
        proof {
            assert(t@.args() =~= Seq::empty());
        }
        t
    }

    /// The identifier of the variable or of the head symbol.
    pub fn get_id(&self) -> (id: i64)
        ensures
            id == self@.id(),
    {
        self.id
    }

    /// The number of arguments; zero for a variable.
    pub fn get_arity(&self) -> (n: usize)
        ensures
            n == self@.args().len(),
    {
        if self.id < 0 {
            0
        } else {
            self.args.len()
        }
    }

    /// Whether the term is a variable.
    pub fn is_variable(&self) -> (r: bool)
        ensures
            r == (self@ is Var),
    {
        self.id < 0
    }

    /// Whether the term is the application of a symbol.
    pub fn is_function(&self) -> (r: bool)
        ensures
            r == (self@ is Fun),
    {
        self.id >= 0
    }

    /// Whether the head symbol is of predicate sort.
    pub fn is_special_function(&self) -> (r: bool)
        ensures
            r == self@.predicate(),
    {
        self.id >= 0 && self.predicate
    }

    /// Whether the term is the reserved truth constant.
    pub fn is_truth(&self) -> (r: bool)
        ensures
            r == (self@ == truth()),
    {
        let r = self.id == 0 && self.predicate && self.args.len() == 0;
        proof {
            if self.id >= 0 {
                assert(self@.args().len() == self.args.len());
            }
            if r {
                assert(self@.args() =~= Seq::empty());
            }
        }
        r
    }

    /// The `i`-th argument of an application.
    pub fn arg(&self, i: usize) -> (a: &Term)
        requires
            i < self@.args().len(),
        ensures
            a@ == self@.args()[i as int],
    {
        &self.args[i]
    }

    /// Structural equality.
    pub fn equals(&self, other: &Term) -> (r: bool)
        ensures
            r == (self@ == other@),
        decreases self,
    {
        if self.id < 0 || other.id < 0 {
            return self.id == other.id;
        }
        if self.id != other.id || self.predicate != other.predicate || self.args.len()
            != other.args.len() {
            proof {
                assert(self@.args().len() == self.args.len());
                assert(other@.args().len() == other.args.len());
            }
            return false;
        }
        let n = self.args.len();
        let mut i: usize = 0;
        while i < n
            invariant
                0 <= i <= n,
                n == self.args.len(),
                n == other.args.len(),
                self.id >= 0,
                other.id >= 0,
                forall|j: int| 0 <= j < i ==> self.args[j]@ == other.args[j]@,
            decreases n - i,
        {
            if !self.args[i].equals(&other.args[i]) {
                proof {
                    assert(self@.args()[i as int] == self.args[i as int]@);
                    assert(other@.args()[i as int] == other.args[i as int]@);
                }
                return false;
            }
            i += 1;
        }
        proof {
            assert(self@.args() =~= other@.args());
        }
        true
    }

    /// Whether the variable `x` occurs in the term.
    pub fn occurs(&self, x: i64) -> (r: bool)
        ensures
            r == self@.occurs(x as int),
        decreases self,
    {
        if self.id < 0 {
            return self.id == x;
        }
        let n = self.args.len();
        let mut i: usize = 0;
        while i < n
            invariant
                0 <= i <= n,
                n == self.args.len(),
                self.id >= 0,
                forall|j: int| 0 <= j < i ==> !self.args[j]@.occurs(x as int),
            decreases n - i,
        {
            if self.args[i].occurs(x) {
                proof {
                    assert(self@.args()[i as int] == self.args[i as int]@);
                }
                return true;
            }
            i += 1;
        }
        proof {
            assert forall|j: int| 0 <= j < self@.args().len() implies !(#[trigger] self@.args()[j]).occurs(
                x as int,
            ) by {
                assert(self@.args()[j] == self.args[j]@);
            }
        }
        false
    }

    /// Whether `t` is a proper subterm of the term.
    pub fn occurs_proper(&self, t: &Term) -> (r: bool)
        ensures
            r == (self@ != t@ && self@.has_subterm(t@)),
        decreases self,
    {
        if self.id < 0 {
            return false;
        }
        let n = self.args.len();
        let mut i: usize = 0;
        while i < n
            invariant
                0 <= i <= n,
                n == self.args.len(),
                self.id >= 0,
                forall|j: int| 0 <= j < i ==> !self.args[j]@.has_subterm(t@),
            decreases n - i,
        {
            let a = &self.args[i];
            if a.equals(t) || a.occurs_proper(t) {
                proof {
                    let u = self@.args()[i as int];
                    assert(u == self.args[i as int]@);
                    assert(u.has_subterm(t@));
                    lemma_subterm_size(u, t@);
                    lemma_size_sum_index(self@.args(), i as int);
                    assert(self@.size() == 1 + size_sum(self@.args()));
                    assert(self@.has_subterm(t@));
                }
                return true;
            }
            i += 1;
        }
        proof {
            assert forall|j: int| 0 <= j < self@.args().len() implies !(#[trigger] self@.args()[j]).has_subterm(
                t@,
            ) by {
                assert(self@.args()[j] == self.args[j]@);
            }
        }
        false
    }

    /// The term with every occurrence of the variable `x` replaced by `t`.
    pub fn replace(&self, x: i64, t: &Term) -> (r: Term)
        ensures
            r@ == self@.replace(x as int, t@),
        decreases self,
    {
        if self.id < 0 {
            if self.id == x {
                return t.clone();
            } else {
                return Term { id: self.id, predicate: false, args: Vec::new() };
            }
        }
        let n = self.args.len();
        let mut args: Vec<Term> = Vec::new();
        let mut i: usize = 0;
        while i < n
            invariant
                0 <= i <= n,
                n == self.args.len(),
                self.id >= 0,
                args.len() == i,
                forall|j: int| 0 <= j < i ==> args[j]@ == self.args[j]@.replace(x as int, t@),
            decreases n - i,
        {
            args.push(self.args[i].replace(x, t));
            i += 1;
        }
        let r = Term { id: self.id, predicate: self.predicate, args };
        proof {
            assert(r@.args() =~= self@.replace(x as int, t@).args());
        }
        r
    }

    /// The number of symbols, each function symbol counted as `f_value` and
    /// each variable as `v_value`, or the largest number where that does not fit.
    pub fn symbol_count(&self, f_value: u64, v_value: u64) -> (n: u64)
        ensures
            n == clip(weighted_size(self@, f_value as nat, v_value as nat)),
        decreases self,
    {
        if self.id < 0 {
            return v_value;
        }
        let len = self.args.len();
        let mut total: u64 = f_value;
        let mut i: usize = 0;
        while i < len
            invariant
                0 <= i <= len,
                len == self.args.len(),
                self.id >= 0,
                total == clip(
                    f_value as nat + weighted_sum(
                        self@.args().take(i as int),
                        f_value as nat,
                        v_value as nat,
                    ),
                ),
            decreases len - i,
        {
            let c = self.args[i].symbol_count(f_value, v_value);
            proof {
                assert(self@.args()[i as int] == self.args[i as int]@);
                assert(self@.args().take(i as int + 1).drop_last() =~= self@.args().take(i as int));
            }
            total = total.saturating_add(c);
            i += 1;
        }
        proof {
            assert(self@.args().take(len as int) =~= self@.args());
        }
        total
    }
}

/// A number cut off at the largest `u64`.
pub open spec fn clip(n: nat) -> u64 {
    if n <= u64::MAX {
        n as u64
    } else {
        u64::MAX
    }
}

/// The weighted number of symbols of a term: `f` for each application, `v`
/// for each variable occurrence.
pub open spec fn weighted_size(t: TermV, f: nat, v: nat) -> nat
    decreases t,
{
    match t {
        TermV::Var(_) => v,
        TermV::Fun(_, _, args) => f + weighted_sum(args, f, v),
    }
}

/// The weighted number of symbols of a sequence of terms.
pub open spec fn weighted_sum(ts: Seq<TermV>, f: nat, v: nat) -> nat
    decreases ts,
{
    if ts.len() == 0 {
        0
    } else {
        weighted_size(ts.last(), f, v) + weighted_sum(ts.drop_last(), f, v)
    }
}

/// A subterm is no larger than the term, and smaller if it is proper.
pub proof fn lemma_subterm_size(t: TermV, u: TermV)
    requires
        t.has_subterm(u),
    ensures
        u.size() <= t.size(),
        t != u ==> u.size() < t.size(),
    decreases t,
{
    if t != u {
        let args = t.args();
        let i = choose|i: int| 0 <= i < args.len() && (#[trigger] args[i]).has_subterm(u);
        lemma_subterm_size(args[i], u);
        lemma_size_sum_index(args, i);
    }
}

impl Clone for Term {
    fn clone(&self) -> (r: Term)
        ensures
            r@ == self@,
        decreases self,
    {
        let mut args: Vec<Term> = Vec::new();
        let n = self.args.len();
        let mut i: usize = 0;
        while i < n
            invariant
                0 <= i <= n,
                n == self.args.len(),
                args.len() == i,
                forall|j: int| 0 <= j < i ==> args[j]@ == self.args[j]@,
            decreases n - i,
        {
            args.push(self.args[i].clone());
            i += 1;
        }
        let r = Term { id: self.id, predicate: self.predicate, args };
        proof {
            if self.id >= 0 {
                assert(r@.args() =~= self@.args());
            }
        }
        r
    }
}

impl PartialEq for Term {
    fn eq(&self, other: &Term) -> (r: bool) {
        self.equals(other)
    }
}

impl vstd::std_specs::cmp::PartialEqSpecImpl for Term {
    open spec fn obeys_eq_spec() -> bool {
        true
    }

    open spec fn eq_spec(&self, other: &Term) -> bool {
        self@ == other@
    }
}

} // verus!
