//! A perfect discrimination tree: a trie over the symbols of terms in
//! preorder, in which the generalizations of a term are found.
use crate::matching::{agrees, matcher};
use crate::substitution::Substitution;
use crate::term::{SubstV, Term, TermV};
use vstd::prelude::*;

verus! {

/// One symbol of a term in preorder: a variable, or a function or predicate
/// symbol with the number of its arguments.
pub enum KeyV {
    Var(int),
    Sym(int, bool, nat),
}

/// One symbol of a term in preorder.
#[derive(Debug, Clone, Copy, PartialEq, Eq, Structural)]
pub enum Key {
    Variable(i64),
    Symbol(i64, bool, usize),
}

impl View for Key {
    type V = KeyV;

    open spec fn view(&self) -> KeyV {
        match self {
            Key::Variable(x) => KeyV::Var(*x as int),
            Key::Symbol(f, p, n) => KeyV::Sym(*f as int, *p, *n as nat),
        }
    }
}

/// The symbols of a term in preorder.
pub open spec fn flatten(t: TermV) -> Seq<KeyV>
    decreases t, 1int,
{
    match t {
        TermV::Var(x) => seq![KeyV::Var(x)],
        TermV::Fun(f, p, args) => seq![KeyV::Sym(f, p, args.len())] + flatten_list(args),
    }
}

/// The symbols of the terms of a sequence, one term after the other.
pub open spec fn flatten_list(ts: Seq<TermV>) -> Seq<KeyV>
    decreases ts, 0int,
{
    if ts.len() == 0 {
        Seq::empty()
    } else {
        flatten(ts[0]) + flatten_list(ts.drop_first())
    }
}

/// The bindings that matching the symbols `ks` of patterns against the
/// terms of `stack`, first term first, adds to `s`, if the patterns match.
pub open spec fn flat_match(ks: Seq<KeyV>, stack: Seq<TermV>, s: SubstV) -> Option<SubstV>
    decreases ks.len(),
{
    if ks.len() == 0 {
        if stack.len() == 0 {
            Some(s)
        } else {
            None
        }
    } else if stack.len() == 0 {
        None
    } else {
        match ks[0] {
            KeyV::Var(x) => if s.dom().contains(x) {
                if s[x] == stack[0] {
                    flat_match(ks.drop_first(), stack.drop_first(), s)
                } else {
                    None
                }
            } else {
                flat_match(ks.drop_first(), stack.drop_first(), s.insert(x, stack[0]))
            },
            KeyV::Sym(f, p, n) => if stack[0] == TermV::Fun(f, p, stack[0].args())
                && stack[0].args().len() == n {
                flat_match(ks.drop_first(), stack[0].args() + stack.drop_first(), s)
            } else {
                None
            },
        }
    }
}

/// The symbols of two sequences of terms put together.
pub proof fn lemma_flatten_concat(a: Seq<TermV>, b: Seq<TermV>)
    ensures
        flatten_list(a + b) == flatten_list(a) + flatten_list(b),
    decreases a.len(),
{
    if a.len() == 0 {
        assert(a + b =~= b);
        assert(flatten_list(a) + flatten_list(b) =~= flatten_list(b));
    } else {
        assert((a + b).drop_first() =~= a.drop_first() + b);
        assert((a + b)[0] == a[0]);
        lemma_flatten_concat(a.drop_first(), b);
        assert(flatten_list(a + b) =~= flatten_list(a) + flatten_list(b));
    }
}

/// No term has no symbols.
pub proof fn lemma_flatten_nonempty(t: TermV)
    ensures
        flatten(t).len() > 0,
        flatten(t)[0] == match t {
            TermV::Var(x) => KeyV::Var(x),
            TermV::Fun(f, p, args) => KeyV::Sym(f, p, args.len()),
        },
{
}

/// Whether every variable of the patterns is bound.
pub open spec fn all_bound(ps: Seq<TermV>, s: SubstV) -> bool {
    forall|j: int, x: int| 0 <= j < ps.len() && #[trigger] ps[j].occurs(x) ==> s.dom().contains(x)
}

/// Whether `s2` is what matching the patterns `ps` against the terms `ss`
/// makes of `s`: it keeps the bindings of `s`, binds the variables of the
/// patterns in addition and no others, and sends each pattern to its term.
pub open spec fn matches_all(ps: Seq<TermV>, ss: Seq<TermV>, s: SubstV, s2: SubstV) -> bool {
    &&& ps.len() == ss.len()
    &&& forall|x: int| #[trigger] s.dom().contains(x) ==> s2.dom().contains(x) && s2[x] == s[x]
    &&& forall|x: int|
        #[trigger] s2.dom().contains(x) ==> s.dom().contains(x) || exists|j: int|
            0 <= j < ps.len() && (#[trigger] ps[j]).occurs(x)
    &&& all_bound(ps, s2)
    &&& forall|j: int| 0 <= j < ps.len() ==> (#[trigger] ps[j]).apply(s2) == ss[j]
}

/// The sum of the sizes of the patterns.
pub open spec fn total_size(ps: Seq<TermV>) -> nat {
    crate::term::size_sum(ps)
}

/// The size of a sequence without its first term, and of arguments put
/// before the rest.
proof fn lemma_size_front(ps: Seq<TermV>)
    requires
        ps.len() > 0,
    ensures
        total_size(ps) == ps[0].size() + total_size(ps.drop_first()),
        total_size(ps[0].args() + ps.drop_first()) + 1 == total_size(ps) || ps[0] is Var,
    decreases ps.len(),
{
    lemma_size_sum_front(ps);
    if ps[0] is Fun {
        lemma_size_sum_concat(ps[0].args(), ps.drop_first());
    }
}

/// The sum of the sizes, counted from the front.
proof fn lemma_size_sum_front(ps: Seq<TermV>)
    requires
        ps.len() > 0,
    ensures
        crate::term::size_sum(ps) == ps[0].size() + crate::term::size_sum(ps.drop_first()),
    decreases ps.len(),
{
    if ps.len() == 1 {
        assert(ps.drop_last() =~= ps.drop_first());
    } else {
        lemma_size_sum_front(ps.drop_last());
        assert(ps.drop_last().drop_first() =~= ps.drop_first().drop_last());
        assert(ps.drop_first().last() == ps.last());
        assert(ps.drop_last()[0] == ps[0]);
    }
}

/// The sum of the sizes of two sequences put together.
proof fn lemma_size_sum_concat(a: Seq<TermV>, b: Seq<TermV>)
    ensures
        crate::term::size_sum(a + b) == crate::term::size_sum(a) + crate::term::size_sum(b),
    decreases b.len(),
{
    if b.len() == 0 {
        assert(a + b =~= a);
    } else {
        assert((a + b).drop_last() =~= a + b.drop_last());
        assert((a + b).last() == b.last());
        lemma_size_sum_concat(a, b.drop_last());
    }
}

/// Matching by symbols is sound: the bindings that come out are what
/// matching the patterns against the terms makes of the bindings that go in.
pub proof fn lemma_flat_match_sound(ps: Seq<TermV>, ss: Seq<TermV>, s: SubstV, s2: SubstV)
    requires
        flat_match(flatten_list(ps), ss, s) == Some(s2),
    ensures
        matches_all(ps, ss, s, s2),
    decreases total_size(ps),
{
    if ps.len() == 0 {
        assert(flatten_list(ps) =~= Seq::empty());
    } else {
        let ks = flatten_list(ps);
        let rest_p = ps.drop_first();
        lemma_flatten_nonempty(ps[0]);
        lemma_size_front(ps);
        assert(ks[0] == flatten(ps[0])[0]);
        match ps[0] {
            TermV::Var(x) => {
                assert(ks.drop_first() =~= flatten_list(rest_p));
                let s1 = if s.dom().contains(x) {
                    s
                } else {
                    s.insert(x, ss[0])
                };
                lemma_flat_match_sound(rest_p, ss.drop_first(), s1, s2);
                assert forall|y: int| #[trigger] s.dom().contains(y) implies s2.dom().contains(y)
                    && s2[y] == s[y] by {
                    assert(s1.dom().contains(y) && s1[y] == s[y]);
                }
                assert forall|j: int| 0 <= j < ps.len() implies (#[trigger] ps[j]).apply(s2)
                    == ss[j] by {
                    if j > 0 {
                        assert(rest_p[j - 1] == ps[j]);
                        assert(rest_p[j - 1].apply(s2) == ss.drop_first()[j - 1]);
                    } else {
                        assert(s1.dom().contains(x));
                    }
                }
                assert(all_bound(ps, s2)) by {
                    assert forall|j: int, y: int|
                        0 <= j < ps.len() && #[trigger] ps[j].occurs(y) implies s2.dom().contains(
                        y,
                    ) by {
                        if j > 0 {
                            assert(rest_p[j - 1].occurs(y));
                        } else {
                            assert(s1.dom().contains(x));
                        }
                    }
                }
                assert forall|y: int| #[trigger] s2.dom().contains(y) implies s.dom().contains(y)
                    || exists|j: int| 0 <= j < ps.len() && (#[trigger] ps[j]).occurs(y) by {
                    if !s.dom().contains(y) {
                        if s1.dom().contains(y) {
                            assert(ps[0].occurs(y));
                        } else {
                            let j = choose|j: int|
                                0 <= j < rest_p.len() && (#[trigger] rest_p[j]).occurs(y);
                            assert(ps[j + 1].occurs(y));
                        }
                    }
                }
            },
            TermV::Fun(f, p, args) => {
                let bs = ss[0].args();
                let ps2 = args + rest_p;
                let ss2 = bs + ss.drop_first();
                lemma_flatten_concat(args, rest_p);
                assert(ks.drop_first() =~= flatten_list(ps2));
                lemma_flat_match_sound(ps2, ss2, s, s2);
                assert forall|y: int| #[trigger] s.dom().contains(y) implies s2.dom().contains(y)
                    && s2[y] == s[y] by {}
                assert forall|j: int| 0 <= j < ps.len() implies (#[trigger] ps[j]).apply(s2)
                    == ss[j] by {
                    if j > 0 {
                        assert(ps2[args.len() + j - 1] == ps[j]);
                        assert(ss2[args.len() + j - 1] == ss[j]);
                    } else {
                        assert forall|k: int| 0 <= k < args.len() implies (#[trigger] args[k]).apply(
                            s2,
                        ) == bs[k] by {
                            assert(ps2[k] == args[k]);
                            assert(ss2[k] == bs[k]);
                        }
                        assert(ps[0].apply(s2).args() =~= bs);
                    }
                }
                assert(all_bound(ps, s2)) by {
                    assert forall|j: int, y: int|
                        0 <= j < ps.len() && #[trigger] ps[j].occurs(y) implies s2.dom().contains(
                        y,
                    ) by {
                        if j > 0 {
                            assert(ps2[args.len() + j - 1] == ps[j]);
                            assert(ps2[args.len() + j - 1].occurs(y));
                        } else {
                            let k = choose|k: int|
                                0 <= k < args.len() && (#[trigger] args[k]).occurs(y);
                            assert(ps2[k] == args[k]);
                            assert(ps2[k].occurs(y));
                        }
                    }
                }
                assert forall|y: int| #[trigger] s2.dom().contains(y) implies s.dom().contains(y)
                    || exists|j: int| 0 <= j < ps.len() && (#[trigger] ps[j]).occurs(y) by {
                    if !s.dom().contains(y) {
                        let j = choose|j: int| 0 <= j < ps2.len() && (#[trigger] ps2[j]).occurs(y);
                        if j < args.len() {
                            assert(ps2[j] == args[j]);
                            assert(ps[0].occurs(y));
                        } else {
                            assert(ps2[j] == ps[j - args.len() + 1]);
                            assert(ps[j - args.len() + 1].occurs(y));
                        }
                    }
                }
            },
        }
    }
}

/// Matching by symbols is complete: where a substitution that agrees with
/// the bindings sends each pattern to its term, matching by symbols gives
/// bindings with which that substitution agrees.
pub proof fn lemma_flat_match_complete(ps: Seq<TermV>, ss: Seq<TermV>, s: SubstV, th: SubstV)
    requires
        ps.len() == ss.len(),
        agrees(th, s),
        forall|j: int| 0 <= j < ps.len() ==> (#[trigger] ps[j]).apply(th) == ss[j],
    ensures
        flat_match(flatten_list(ps), ss, s) is Some,
        agrees(th, flat_match(flatten_list(ps), ss, s)->0),
    decreases total_size(ps),
{
    if ps.len() == 0 {
        assert(flatten_list(ps) =~= Seq::empty());
    } else {
        let ks = flatten_list(ps);
        let rest_p = ps.drop_first();
        lemma_flatten_nonempty(ps[0]);
        lemma_size_front(ps);
        assert(ks[0] == flatten(ps[0])[0]);
        assert(ps[0].apply(th) == ss[0]);
        assert forall|j: int| 0 <= j < rest_p.len() implies (#[trigger] rest_p[j]).apply(th)
            == ss.drop_first()[j] by {
            assert(rest_p[j] == ps[j + 1]);
        }
        match ps[0] {
            TermV::Var(x) => {
                assert(ks.drop_first() =~= flatten_list(rest_p));
                if s.dom().contains(x) {
                    assert(TermV::Var(x).apply(th) == s[x]);
                    lemma_flat_match_complete(rest_p, ss.drop_first(), s, th);
                } else {
                    let s1 = s.insert(x, ss[0]);
                    assert(agrees(th, s1)) by {
                        assert forall|y: int| s1.dom().contains(y) implies #[trigger] TermV::Var(
                            y,
                        ).apply(th) == s1[y] by {
                            if y != x {
                                assert(s.dom().contains(y));
                            }
                        }
                    }
                    lemma_flat_match_complete(rest_p, ss.drop_first(), s1, th);
                }
            },
            TermV::Fun(f, p, args) => {
                let bs = ss[0].args();
                let ps2 = args + rest_p;
                let ss2 = bs + ss.drop_first();
                lemma_flatten_concat(args, rest_p);
                assert(ks.drop_first() =~= flatten_list(ps2));
                assert(bs.len() == args.len());
                assert forall|j: int| 0 <= j < ps2.len() implies (#[trigger] ps2[j]).apply(th)
                    == ss2[j] by {
                    if j < args.len() {
                        assert(ps[0].apply(th).args()[j] == args[j].apply(th));
                    } else {
                        assert(ps2[j] == rest_p[j - args.len()]);
                    }
                }
                lemma_flat_match_complete(ps2, ss2, s, th);
            },
        }
    }
}

/// The bindings of matching one pattern by its symbols are its matcher.
pub proof fn lemma_flat_match_matcher(l: TermV, t: TermV, s2: SubstV)
    requires
        flat_match(flatten(l), seq![t], Map::empty()) == Some(s2),
    ensures
        matcher(s2, l, t),
{
    let ps = seq![l];
    assert(ps.drop_first() =~= Seq::<TermV>::empty());
    assert(flatten_list(Seq::<TermV>::empty()) =~= Seq::<KeyV>::empty());
    assert(flatten_list(ps) =~= flatten(l));
    lemma_flat_match_sound(ps, seq![t], Map::empty(), s2);
    assert(ps[0].apply(s2) == seq![t][0]);
    assert forall|x: int| #[trigger] s2.dom().contains(x) <==> l.occurs(x) by {
        if s2.dom().contains(x) {
            let j = choose|j: int| 0 <= j < ps.len() && (#[trigger] ps[j]).occurs(x);
        }
        if l.occurs(x) {
            assert(ps[0].occurs(x));
        }
    }
}

/// A pattern that matches a term matches it by its symbols.
pub proof fn lemma_matcher_flat_match(l: TermV, t: TermV, th: SubstV)
    requires
        l.apply(th) == t,
    ensures
        flat_match(flatten(l), seq![t], Map::empty()) is Some,
{
    let ps = seq![l];
    assert(ps.drop_first() =~= Seq::<TermV>::empty());
    assert(flatten_list(Seq::<TermV>::empty()) =~= Seq::<KeyV>::empty());
    assert(flatten_list(ps) =~= flatten(l));
    lemma_flat_match_complete(ps, seq![t], Map::empty(), th);
}

/// The views of a sequence of symbols.
pub open spec fn keys_view(ks: Seq<Key>) -> Seq<KeyV> {
    Seq::new(ks.len(), |i: int| ks[i]@)
}

/// The views of the terms of a stack.
pub open spec fn stack_view(stack: Seq<&Term>) -> Seq<TermV> {
    Seq::new(stack.len(), |i: int| (*stack[i])@)
}

/// Adds the symbols of a term in preorder to `out`.
pub fn push_keys(t: &Term, out: &mut Vec<Key>)
    ensures
        keys_view(final(out)@) == keys_view(old(out)@) + flatten(t@),
    decreases t,
{
    let ghost before = keys_view(out@);
    if t.id < 0 {
        out.push(Key::Variable(t.id));
        proof {
            assert(keys_view(out@) =~= before + flatten(t@));
        }
        return ;
    }
    out.push(Key::Symbol(t.id, t.predicate, t.args.len()));
    let ghost head = keys_view(out@);
    proof {
        assert(head =~= before + seq![KeyV::Sym(t.id as int, t.predicate, t.args.len() as nat)]);
        assert(t@.args().take(0) =~= Seq::<TermV>::empty());
        assert(head + flatten_list(t@.args().take(0)) =~= head);
    }
    let n = t.args.len();
    let mut i: usize = 0;
    while i < n
        invariant
            0 <= i <= n,
            n == t.args.len(),
            t.id >= 0,
            keys_view(out@) == head + flatten_list(t@.args().take(i as int)),
        decreases n - i,
    {
        let ghost done = t@.args().take(i as int);
        push_keys(&t.args[i], out);
        proof {
            let a = t@.args()[i as int];
            assert(a == t.args[i as int]@);
            assert(t@.args().take(i as int + 1) =~= done + seq![a]);
            lemma_flatten_concat(done, seq![a]);
            assert(seq![a].drop_first() =~= Seq::<TermV>::empty());
            assert(flatten_list(Seq::<TermV>::empty()) =~= Seq::<KeyV>::empty());
            assert(flatten_list(seq![a]) =~= flatten(a));
            assert(keys_view(out@) =~= head + flatten_list(t@.args().take(i as int + 1)));
        }
        i += 1;
    }
    proof {
        assert(t@.args().take(n as int) =~= t@.args());
        assert(keys_view(out@) =~= before + flatten(t@));
    }
}

/// A node of the tree: the rules whose symbols end here, and for each next
/// symbol the node that it leads to.
#[derive(Debug)]
pub struct PDTree {
    pub edges: Vec<(Key, PDTree)>,
    pub rules: Vec<usize>,
}

/// Whether the rule `i` is stored in the tree at the end of the symbols `ks`.
pub open spec fn in_tree(tree: PDTree, ks: Seq<KeyV>, i: usize) -> bool
    decreases ks.len(),
{
    if ks.len() == 0 {
        tree.rules@.contains(i)
    } else {
        exists|e: int|
            0 <= e < tree.edges@.len() && (#[trigger] tree.edges@[e]).0@ == ks[0] && in_tree(
                tree.edges@[e].1,
                ks.drop_first(),
                i,
            )
    }
}

/// Whether the `k`-th entry of `out` is the rule `i` with the bindings that
/// matching its symbols `ks` against the stack adds to `s`.
pub open spec fn found(
    out: Seq<(usize, Substitution)>,
    k: int,
    tree: PDTree,
    ks: Seq<KeyV>,
    stack: Seq<TermV>,
    s: SubstV,
) -> bool {
    &&& 0 <= k < out.len()
    &&& in_tree(tree, ks, out[k].0)
    &&& flat_match(ks, stack, s) == Some(out[k].1@)
}

/// Whether the `k`-th entry of `out` was found in the tree.
pub open spec fn entry_found(
    out: Seq<(usize, Substitution)>,
    k: int,
    tree: PDTree,
    stack: Seq<TermV>,
    s: SubstV,
) -> bool {
    exists|ks: Seq<KeyV>| found(out, k, tree, ks, stack, s)
}

/// Whether every entry of `out` from place `start` on was found in the tree.
pub open spec fn all_found(
    out: Seq<(usize, Substitution)>,
    start: int,
    tree: PDTree,
    stack: Seq<TermV>,
    s: SubstV,
) -> bool {
    forall|k: int| start <= k < out.len() ==> #[trigger] entry_found(out, k, tree, stack, s)
}

/// Whether the rule `i` with symbols `ks`, if these match the stack, is
/// among the entries of `out` from place `start` on.
pub open spec fn listed(
    out: Seq<(usize, Substitution)>,
    start: int,
    i: usize,
    ks: Seq<KeyV>,
    stack: Seq<TermV>,
    s: SubstV,
) -> bool {
    flat_match(ks, stack, s) is Some ==> exists|k: int|
        start <= k < out.len() && (#[trigger] out[k]).0 == i && out[k].1@ == flat_match(
            ks,
            stack,
            s,
        )->0
}

/// Whether `before` is the beginning of `after`.
pub open spec fn extended(
    before: Seq<(usize, Substitution)>,
    after: Seq<(usize, Substitution)>,
) -> bool {
    &&& before.len() <= after.len()
    &&& forall|k: int| 0 <= k < before.len() ==> after[k] == before[k]
}

impl PDTree {
    /// A tree without rules.
    pub fn new() -> (t: PDTree)
        ensures
            t.edges@.len() == 0,
            t.rules@.len() == 0,
            forall|ks: Seq<KeyV>, i: usize| !in_tree(t, ks, i),
    {
        let t = PDTree { edges: Vec::new(), rules: Vec::new() };
        proof {
            assert forall|ks: Seq<KeyV>, i: usize| !in_tree(t, ks, i) by {}
        }
        t
    }

    /// The tree with the rule `rule` stored at the end of the symbols of
    /// `keys` from place `from` on.
    pub fn insert(self, keys: &Vec<Key>, from: usize, rule: usize) -> (r: PDTree)
        requires
            from <= keys.len(),
        ensures
            forall|ks: Seq<KeyV>, i: usize|
                #[trigger] in_tree(r, ks, i) <==> in_tree(self, ks, i) || (ks == keys_view(
                    keys@,
                ).skip(from as int) && i == rule),
        decreases keys.len() - from,
    {
        let ghost target = keys_view(keys@).skip(from as int);
        let mut t = self;
        if from == keys.len() {
            let ghost old_rules = t.rules@;
            t.rules.push(rule);
            proof {
                assert(target =~= Seq::<KeyV>::empty());
                assert forall|ks: Seq<KeyV>, i: usize|
                    #[trigger] in_tree(t, ks, i) <==> in_tree(self, ks, i) || (ks == target && i
                        == rule) by {
                    if ks.len() == 0 {
                        assert(ks =~= target);
                        if i == rule {
                            assert(t.rules@[old_rules.len() as int] == rule);
                        }
                        if t.rules@.contains(i) && i != rule {
                            let k = choose|k: int| 0 <= k < t.rules@.len() && t.rules@[k] == i;
                            assert(old_rules[k] == i);
                        }
                        if old_rules.contains(i) {
                            let k = choose|k: int| 0 <= k < old_rules.len() && old_rules[k] == i;
                            assert(t.rules@[k] == i);
                        }
                    } else {
                        assert(t.edges@ == self.edges@);
                    }
                }
            }
            return t;
        }
        let key = keys[from];
        let n = t.edges.len();
        let mut j: usize = 0;
        while j < n && t.edges[j].0 != key
            invariant
                0 <= j <= n,
                n == t.edges.len(),
                t.edges@ == self.edges@,
                t.rules@ == self.rules@,
                forall|e: int| 0 <= e < j ==> (#[trigger] t.edges@[e]).0 != key,
            decreases n - j,
        {
            j += 1;
        }
        let ghost old_edges = t.edges@;
        proof {
            assert(target.len() > 0);
            assert(target[0] == key@);
            assert(target.drop_first() =~= keys_view(keys@).skip(from as int + 1));
        }
        if j < n {
            let (k, child) = t.edges.remove(j);
            let ghost rest = t.edges@;
            let child2 = child.insert(keys, from + 1, rule);
            t.edges.push((k, child2));
            proof {
                assert(k == key);
                assert(t.edges@[rest.len() as int] == (k, child2));
                assert forall|ks: Seq<KeyV>, i: usize|
                    #[trigger] in_tree(t, ks, i) <==> in_tree(self, ks, i) || (ks == target && i
                        == rule) by {
                    if ks.len() > 0 {
                        let ks2 = ks.drop_first();
                        if in_tree(t, ks, i) {
                            let e = choose|e: int|
                                0 <= e < t.edges@.len() && (#[trigger] t.edges@[e]).0@ == ks[0]
                                    && in_tree(t.edges@[e].1, ks2, i);
                            if e < rest.len() {
                                let e0 = if e < j {
                                    e
                                } else {
                                    e + 1
                                };
                                assert(old_edges[e0] == t.edges@[e]);
                                assert(in_tree(self, ks, i));
                            } else {
                                assert(t.edges@[e].1 == child2);
                                if in_tree(child, ks2, i) {
                                    assert(old_edges[j as int].0@ == ks[0]);
                                    assert(in_tree(self, ks, i));
                                } else {
                                    assert(ks2 == target.drop_first());
                                    assert(ks[0] == target[0]);
                                    assert(ks =~= seq![ks[0]] + ks2);
                                    assert(target =~= seq![target[0]] + target.drop_first());
                                }
                            }
                        }
                        if in_tree(self, ks, i) {
                            let e0 = choose|e: int|
                                0 <= e < old_edges.len() && (#[trigger] old_edges[e]).0@ == ks[0]
                                    && in_tree(old_edges[e].1, ks2, i);
                            if e0 == j {
                                assert(t.edges@[rest.len() as int].0@ == ks[0]);
                                assert(in_tree(child2, ks2, i));
                                assert(in_tree(t.edges@[rest.len() as int].1, ks2, i));
                            } else {
                                let e = if e0 < j {
                                    e0
                                } else {
                                    e0 - 1
                                };
                                assert(t.edges@[e] == old_edges[e0]);
                            }
                        }
                        if ks == target && i == rule {
                            assert(in_tree(child2, ks2, i));
                            assert(t.edges@[rest.len() as int].0@ == ks[0]);
                            assert(in_tree(t.edges@[rest.len() as int].1, ks2, i));
                        }
                    } else {
                        assert(t.rules@ == self.rules@);
                    }
                }
            }
        } else {
            let child = PDTree::new().insert(keys, from + 1, rule);
            t.edges.push((key, child));
            proof {
                assert forall|ks: Seq<KeyV>, i: usize|
                    #[trigger] in_tree(t, ks, i) <==> in_tree(self, ks, i) || (ks == target && i
                        == rule) by {
                    if ks.len() > 0 {
                        let ks2 = ks.drop_first();
                        if in_tree(t, ks, i) {
                            let e = choose|e: int|
                                0 <= e < t.edges@.len() && (#[trigger] t.edges@[e]).0@ == ks[0]
                                    && in_tree(t.edges@[e].1, ks2, i);
                            if e < old_edges.len() {
                                assert(old_edges[e] == t.edges@[e]);
                                assert(in_tree(self, ks, i));
                            } else {
                                assert(t.edges@[e] == (key, child));
                                assert(ks2 == target.drop_first());
                                assert(ks[0] == target[0]);
                                assert(ks =~= seq![ks[0]] + ks2);
                                assert(target =~= seq![target[0]] + target.drop_first());
                            }
                        }
                        if in_tree(self, ks, i) {
                            let e0 = choose|e: int|
                                0 <= e < old_edges.len() && (#[trigger] old_edges[e]).0@ == ks[0]
                                    && in_tree(old_edges[e].1, ks2, i);
                            assert(t.edges@[e0] == old_edges[e0]);
                        }
                        if ks == target && i == rule {
                            assert(in_tree(child, ks2, i));
                            assert(t.edges@[old_edges.len() as int].0@ == ks[0]);
                            assert(in_tree(t.edges@[old_edges.len() as int].1, ks2, i));
                        }
                    } else {
                        assert(t.rules@ == self.rules@);
                    }
                }
            }
        }
        t
    }
}

/// An entry that was found stays found when more entries are added.
proof fn lemma_found_extended(
    before: Seq<(usize, Substitution)>,
    after: Seq<(usize, Substitution)>,
    start: int,
    tree: PDTree,
    stack: Seq<TermV>,
    s: SubstV,
)
    requires
        0 <= start,
        extended(before, after),
        all_found(before, start, tree, stack, s),
    ensures
        forall|k: int| start <= k < before.len() ==> #[trigger] entry_found(after, k, tree, stack, s),
{
    assert forall|k: int| start <= k < before.len() implies #[trigger] entry_found(
        after,
        k,
        tree,
        stack,
        s,
    ) by {
        assert(entry_found(before, k, tree, stack, s));
        let ks = choose|ks: Seq<KeyV>| found(before, k, tree, ks, stack, s);
        assert(after[k] == before[k]);
        assert(found(after, k, tree, ks, stack, s));
    }
}

/// A rule that was listed stays listed when more entries are added.
proof fn lemma_listed_extended(
    before: Seq<(usize, Substitution)>,
    after: Seq<(usize, Substitution)>,
    start: int,
    i: usize,
    ks: Seq<KeyV>,
    stack: Seq<TermV>,
    s: SubstV,
)
    requires
        0 <= start,
        extended(before, after),
        listed(before, start, i, ks, stack, s),
    ensures
        listed(after, start, i, ks, stack, s),
{
    if flat_match(ks, stack, s) is Some {
        let k = choose|k: int|
            start <= k < before.len() && (#[trigger] before[k]).0 == i && before[k].1@
                == flat_match(ks, stack, s)->0;
        assert(after[k] == before[k]);
    }
}

/// The stack without its first term.
fn rest_of<'a>(stack: &Vec<&'a Term>) -> (rest: Vec<&'a Term>)
    requires
        stack@.len() > 0,
    ensures
        stack_view(rest@) == stack_view(stack@).drop_first(),
{
    let mut rest: Vec<&Term> = Vec::new();
    let n = stack.len();
    let mut k: usize = 1;
    while k < n
        invariant
            1 <= k <= n,
            n == stack@.len(),
            rest@.len() == k - 1,
            forall|j: int| 0 <= j < k - 1 ==> #[trigger] rest@[j] == stack@[j + 1],
        decreases n - k,
    {
        rest.push(stack[k]);
        k += 1;
    }
    proof {
        assert(stack_view(rest@) =~= stack_view(stack@).drop_first());
    }
    rest
}

/// The arguments of the first term of the stack before the rest of the stack.
fn unfold_top<'a>(stack: &Vec<&'a Term>) -> (next: Vec<&'a Term>)
    requires
        stack@.len() > 0,
        (*stack@[0])@ is Fun,
    ensures
        stack_view(next@) == (*stack@[0])@.args() + stack_view(stack@).drop_first(),
{
    let top: &Term = stack[0];
    let mut next: Vec<&Term> = Vec::new();
    let m = top.args.len();
    let mut a: usize = 0;
    while a < m
        invariant
            0 <= a <= m,
            m == top.args.len(),
            next@.len() == a,
            forall|j: int| 0 <= j < a ==> (*next@[j])@ == top.args[j]@,
        decreases m - a,
    {
        next.push(&top.args[a]);
        a += 1;
    }
    let n = stack.len();
    let mut k: usize = 1;
    while k < n
        invariant
            1 <= k <= n,
            n == stack@.len(),
            m == top.args.len(),
            next@.len() == m + k - 1,
            forall|j: int| 0 <= j < m ==> (*next@[j])@ == top.args[j]@,
            forall|j: int| m <= j < m + k - 1 ==> #[trigger] next@[j] == stack@[j - m + 1],
        decreases n - k,
    {
        next.push(stack[k]);
        k += 1;
    }
    proof {
        let args = (*stack@[0])@.args();
        assert(args.len() == m);
        assert forall|j: int| 0 <= j < m implies (*next@[j])@ == args[j] by {
            assert(args[j] == top.args[j]@);
        }
        assert(stack_view(next@) =~= args + stack_view(stack@).drop_first());
    }
    next
}

impl PDTree {
    /// Adds to `out` the rules of the tree whose symbols match the terms of
    /// the stack, each with the bindings that the match adds to `sigma`.
    pub fn collect(
        &self,
        stack: &Vec<&Term>,
        sigma: &Substitution,
        out: &mut Vec<(usize, Substitution)>,
    )
        ensures
            extended(old(out)@, final(out)@),
            all_found(
                final(out)@,
                old(out)@.len() as int,
                *self,
                stack_view(stack@),
                sigma@,
            ),
            forall|ks: Seq<KeyV>, i: usize| #[trigger]
                in_tree(*self, ks, i) ==> listed(
                    final(out)@,
                    old(out)@.len() as int,
                    i,
                    ks,
                    stack_view(stack@),
                    sigma@,
                ),
        decreases self,
    {
        let ghost start = out@.len() as int;
        let ghost st = stack_view(stack@);
        let ghost s0 = sigma@;
        if stack.len() == 0 {
            let n = self.rules.len();
            let mut r: usize = 0;
            while r < n
                invariant
                    0 <= r <= n,
                    n == self.rules@.len(),
                    st.len() == 0,
                    s0 == sigma@,
                    start == old(out)@.len(),
                    out@.len() == start + r,
                    extended(old(out)@, out@),
                    forall|j: int|
                        0 <= j < r ==> (#[trigger] out@[start + j]).0 == self.rules@[j]
                            && out@[start + j].1@ == s0,
                decreases n - r,
            {
                let ghost before = out@;
                out.push((self.rules[r], sigma.clone()));
                proof {
                    assert forall|j: int| 0 <= j < r + 1 implies (#[trigger] out@[start + j]).0
                        == self.rules@[j] && out@[start + j].1@ == s0 by {
                        if j < r {
                            assert(out@[start + j] == before[start + j]);
                        }
                    }
                }
                r += 1;
            }
            proof {
                let e = Seq::<KeyV>::empty();
                assert forall|k: int| start <= k < out@.len() implies #[trigger] entry_found(
                    out@,
                    k,
                    *self,
                    st,
                    s0,
                ) by {
                    let j = k - start;
                    assert(out@[start + j].0 == self.rules@[j]);
                    assert(in_tree(*self, e, out@[k].0));
                    assert(found(out@, k, *self, e, st, s0));
                }
                assert forall|ks: Seq<KeyV>, i: usize| #[trigger]
                    in_tree(*self, ks, i) implies listed(out@, start, i, ks, st, s0) by {
                    if ks.len() == 0 {
                        let j = choose|j: int| 0 <= j < self.rules@.len() && self.rules@[j] == i;
                        assert(out@[start + j].0 == i);
                    }
                }
            }
            return ;
        }
        let top: &Term = stack[0];
        let rest = rest_of(stack);
        let n = self.edges.len();
        let mut e: usize = 0;
        while e < n
            invariant
                0 <= e <= n,
                n == self.edges@.len(),
                st == stack_view(stack@),
                st.len() > 0,
                st[0] == top@,
                s0 == sigma@,
                stack_view(rest@) == st.drop_first(),
                start <= out@.len(),
                extended(old(out)@, out@),
                start == old(out)@.len(),
                all_found(out@, start, *self, st, s0),
                forall|ks: Seq<KeyV>, i: usize, e2: int|
                    ks.len() > 0 && 0 <= e2 < e && (#[trigger] self.edges@[e2]).0@ == ks[0]
                        && #[trigger] in_tree(self.edges@[e2].1, ks.drop_first(), i) ==> listed(
                        out@,
                        start,
                        i,
                        ks,
                        st,
                        s0,
                    ),
            decreases n - e,
        {
            let ghost before = out@;
            let key = self.edges[e].0;
            let child = &self.edges[e].1;
            let ghost mut st2 = st.drop_first();
            let ghost mut s2 = s0;
            let ghost mut called = false;
            match key {
                Key::Variable(x) => {
                    match sigma.image(x) {
                        Some(u) => {
                            if u.equals(top) {
                                child.collect(&rest, sigma, out);
                                proof {
                                    called = true;
                                }
                            }
                        },
                        None => {
                            let mut extended_sigma = sigma.clone();
                            extended_sigma.bind(x, top.clone());
                            child.collect(&rest, &extended_sigma, out);
                            proof {
                                called = true;
                                s2 = extended_sigma@;
                            }
                        },
                    }
                },
                Key::Symbol(f, p, m) => {
                    if top.id >= 0 && top.id == f && top.predicate == p && top.args.len() == m {
                        let next = unfold_top(stack);
                        child.collect(&next, sigma, out);
                        proof {
                            called = true;
                            st2 = stack_view(next@);
                        }
                    }
                },
            }
            proof {
                assert(top@.args().len() == if top.id >= 0 {
                    top.args.len()
                } else {
                    0
                });
                // what the symbol of this edge makes of a match
                assert forall|ks: Seq<KeyV>| ks.len() > 0 && ks[0] == key@ implies (#[trigger] flat_match(
                    ks,
                    st,
                    s0,
                )) == if called {
                    flat_match(ks.drop_first(), st2, s2)
                } else {
                    None
                } by {}
                if called {
                    assert(extended(before, out@));
                    lemma_found_extended(before, out@, start, *self, st, s0);
                    assert forall|k: int| before.len() <= k < out@.len() implies #[trigger] entry_found(
                        out@,
                        k,
                        *self,
                        st,
                        s0,
                    ) by {
                        assert(entry_found(out@, k, *child, st2, s2));
                        let ks2 = choose|ks2: Seq<KeyV>| found(out@, k, *child, ks2, st2, s2);
                        let ks = seq![key@] + ks2;
                        assert(ks.drop_first() =~= ks2);
                        assert(self.edges@[e as int].0@ == ks[0]);
                        assert(in_tree(*self, ks, out@[k].0));
                        assert(found(out@, k, *self, ks, st, s0));
                    }
                }
                assert forall|ks: Seq<KeyV>, i: usize, e2: int|
                    ks.len() > 0 && 0 <= e2 < e + 1 && (#[trigger] self.edges@[e2]).0@ == ks[0]
                        && #[trigger] in_tree(self.edges@[e2].1, ks.drop_first(), i) implies listed(
                    out@,
                    start,
                    i,
                    ks,
                    st,
                    s0,
                ) by {
                    if e2 < e {
                        assert(listed(before, start, i, ks, st, s0));
                        lemma_listed_extended(before, out@, start, i, ks, st, s0);
                    } else {
                        if called {
                            assert(in_tree(*child, ks.drop_first(), i));
                            assert(listed(out@, before.len() as int, i, ks.drop_first(), st2, s2));
                        }
                    }
                }
            }
            e += 1;
        }
        proof {
            assert forall|ks: Seq<KeyV>, i: usize| #[trigger] in_tree(*self, ks, i) implies listed(
                out@,
                start,
                i,
                ks,
                st,
                s0,
            ) by {
                if ks.len() > 0 {
                    let e2 = choose|e2: int|
                        0 <= e2 < self.edges@.len() && (#[trigger] self.edges@[e2]).0@ == ks[0]
                            && in_tree(self.edges@[e2].1, ks.drop_first(), i);
                    assert(in_tree(self.edges@[e2].1, ks.drop_first(), i));
                }
            }
        }
    }
}

} // verus!
