//! A reference answer-set (stable model) solver for ground normal programs.
//!
//! A set `S` of ground atoms is a stable model iff `S` is the least model of
//! the Gelfond–Lifschitz reduct `P^S` (drop each rule with a `not c`, `c ∈ S`,
//! then drop the remaining negative literals) and no constraint `:- B` has its
//! body hold under `S`. The reduct depends only on which *negated* atoms are in
//! `S`, so the solver enumerates guesses over the negated atoms alone, computes
//! the least model of the reduct, and keeps it when it reproduces the guess.
use vstd::prelude::*;

pub mod aspif;
pub mod clasp;
pub mod ground;
pub mod heuristic;
pub mod normalize;
pub mod order;
pub mod program;
pub mod simplify;
pub mod unfounded;

pub use crate::asp::ground::{ground, solve};
pub use crate::asp::program::{atom, var, Atom, Literal, Rule, Term};

use crate::asp::order::{AtomView, av, mv, mvs, ord_atom_fn, ord_model_fn, sort_atoms, sort_models, sorted_by};
use vstd::multiset::Multiset;

verus! {

/// A ground constant value.
#[derive(Debug, Clone, PartialEq, Eq, Hash, PartialOrd, Ord)]
pub enum Val {
    Sym(String),
    Int(i64),
}

/// A ground atom: predicate + ground arguments.
pub type GroundAtom = (String, Vec<Val>);

/// Guessing is refused past this many distinct negated ground atoms (`2^n`).
pub const MAX_GUESS_ATOMS: usize = 24;
/// Grounding is refused past this many instantiations of a single rule.
pub const MAX_INSTANTIATIONS: usize = 1048576;

/// Why the reference solver declined a program.
#[derive(Debug, Clone, PartialEq, Eq)]
pub enum AspError {
    /// Too many negated atoms for exact enumeration.
    TooManyChoices(usize),
    /// A single rule grounds to more instantiations than allowed.
    TooLargeGrounding,
    /// A construct outside the reference solver's scope.
    Unsupported(&'static str),
}

/// The text of an [`AspError`].
pub open spec fn asp_error_text(e: AspError) -> Seq<char> {
    match e {
        AspError::TooManyChoices(n) => crate::text::dec(n as nat) + " negated atoms exceed the guess limit of 24"@,
        AspError::TooLargeGrounding => "rule grounds too large for the reference solver"@,
        AspError::Unsupported(w) => "not supported by the reference ASP solver: "@ + w@,
    }
}

impl AspError {
    /// Human-readable message (the `Display` text).
    pub fn message(&self) -> (s: String)
        ensures
            s@ == asp_error_text(*self),
    {
        match self {
            AspError::TooManyChoices(n) => {
                let mut s = String::new();
                crate::text::push_decimal(&mut s, *n as u64);
                s.append(" negated atoms exceed the guess limit of 24");
                s
            },
            AspError::TooLargeGrounding => String::from_str("rule grounds too large for the reference solver"),
            AspError::Unsupported(w) => {
                let mut s = String::from_str("not supported by the reference ASP solver: ");
                s.append(w);
                s
            },
        }
    }
}

/// A ground rule over interned atom ids: `head :- pos, not neg`.
pub struct GRule {
    /// `None` ⇒ a constraint (`:- body`, an empty/false head).
    pub head: Option<usize>,
    pub pos: Vec<usize>,
    pub neg: Vec<usize>,
}

/// A fully grounded normal program: the ground rules plus the atom table that
/// maps each interned id back to its ground atom.
pub struct Ground {
    pub rules: Vec<GRule>,
    /// `atoms[id]` is the ground atom interned as `id`.
    pub atoms: Vec<GroundAtom>,
}

impl Ground {
    /// Number of distinct ground atoms.
    pub fn n_atoms(&self) -> (n: usize)
        ensures
            n == self.atoms@.len(),
    {
        self.atoms.len()
    }
}

/// Every atom id of every rule is below `n`.
pub open spec fn rules_in(rules: Seq<GRule>, n: nat) -> bool {
    forall|i: int| 0 <= i < rules.len() ==> {
        &&& (#[trigger] rules[i]).head matches Some(h) ==> h < n
        &&& forall|k: int| 0 <= k < rules[i].pos@.len() ==> rules[i].pos@[k] < n
        &&& forall|k: int| 0 <= k < rules[i].neg@.len() ==> rules[i].neg@[k] < n
    }
}

/// The program mentions only atoms of its table.
pub open spec fn ground_wf(g: Ground) -> bool {
    rules_in(g.rules@, g.atoms@.len())
}

/// The ids marked true.
pub open spec fn set_of(v: Seq<bool>) -> Set<usize> {
    Set::new(|i: usize| i < v.len() && v[i as int])
}

/// Every positive body atom of `r` is in `s`.
pub open spec fn pos_in(r: GRule, s: Set<usize>) -> bool {
    forall|k: int| 0 <= k < r.pos@.len() ==> s.contains(#[trigger] r.pos@[k])
}

/// No negative body atom of `r` is in `s`.
pub open spec fn neg_out(r: GRule, s: Set<usize>) -> bool {
    forall|k: int| 0 <= k < r.neg@.len() ==> !s.contains(#[trigger] r.neg@[k])
}

/// `r` survives in the reduct with respect to `s`: it has a head and no
/// negative body atom in `s`.
pub open spec fn active(r: GRule, s: Set<usize>) -> bool {
    r.head is Some && neg_out(r, s)
}

/// `m` is closed under the reduct of `rules` with respect to `s`.
pub open spec fn closed(rules: Seq<GRule>, s: Set<usize>, m: Set<usize>) -> bool {
    forall|i: int| 0 <= i < rules.len() && active(#[trigger] rules[i], s) && pos_in(rules[i], m)
        ==> m.contains(rules[i].head->0)
}

/// The least model of the reduct of `rules` with respect to `s`: the atoms in
/// every set closed under it.
pub open spec fn lm(rules: Seq<GRule>, s: Set<usize>) -> Set<usize> {
    Set::new(|a: usize| forall|m: Set<usize>| #[trigger] closed(rules, s, m) ==> m.contains(a))
}

/// No constraint of `rules` has its body hold under `s`.
pub open spec fn constraints_hold(rules: Seq<GRule>, s: Set<usize>) -> bool {
    forall|i: int| 0 <= i < rules.len() && (#[trigger] rules[i]).head is None ==> !(pos_in(rules[i], s) && neg_out(rules[i], s))
}

/// `s` is a stable model (answer set) of `rules`.
pub open spec fn stable(rules: Seq<GRule>, s: Set<usize>) -> bool {
    s == lm(rules, s) && constraints_hold(rules, s)
}

/// Number of `false` entries.
pub open spec fn nfalse(v: Seq<bool>) -> nat
    decreases v.len(),
{
    if v.len() == 0 { 0 } else { nfalse(v.drop_last()) + if v.last() { 0nat } else { 1nat } }
}

pub proof fn lemma_nfalse_set(v: Seq<bool>, i: int)
    requires
        0 <= i < v.len(),
        !v[i],
    ensures
        nfalse(v.update(i, true)) + 1 == nfalse(v),
    decreases v.len(),
{
    let w = v.update(i, true);
    if i < v.len() - 1 {
        assert(w.drop_last() =~= v.drop_last().update(i, true));
        lemma_nfalse_set(v.drop_last(), i);
    } else {
        assert(w.drop_last() =~= v.drop_last());
    }
}

/// A vector of `n` copies of `b`.
pub fn filled(n: usize, b: bool) -> (v: Vec<bool>)
    ensures
        v@.len() == n,
        forall|i: int| 0 <= i < n ==> v@[i] == b,
{
    let mut v: Vec<bool> = Vec::new();
    let mut i: usize = 0;
    while i < n
        invariant
            i <= n,
            v@.len() == i,
            forall|k: int| 0 <= k < i ==> v@[k] == b,
        decreases n - i,
    {
        v.push(b);
        i = i + 1;
    }
    v
}

/// All of `ids` are marked in `v`.
pub fn all_marked(ids: &Vec<usize>, v: &Vec<bool>) -> (r: bool)
    requires
        forall|k: int| 0 <= k < ids@.len() ==> ids@[k] < v@.len(),
    ensures
        r == forall|k: int| 0 <= k < ids@.len() ==> set_of(v@).contains(#[trigger] ids@[k]),
{
    let mut i: usize = 0;
    while i < ids.len()
        invariant
            i <= ids@.len(),
            forall|k: int| 0 <= k < ids@.len() ==> ids@[k] < v@.len(),
            forall|k: int| 0 <= k < i ==> set_of(v@).contains(#[trigger] ids@[k]),
        decreases ids@.len() - i,
    {
        if !v[ids[i]] {
            assert(!set_of(v@).contains(ids@[i as int]));
            return false;
        }
        i = i + 1;
    }
    true
}

/// None of `ids` is marked in `v`.
pub fn none_marked(ids: &Vec<usize>, v: &Vec<bool>) -> (r: bool)
    requires
        forall|k: int| 0 <= k < ids@.len() ==> ids@[k] < v@.len(),
    ensures
        r == forall|k: int| 0 <= k < ids@.len() ==> !set_of(v@).contains(#[trigger] ids@[k]),
{
    let mut i: usize = 0;
    while i < ids.len()
        invariant
            i <= ids@.len(),
            forall|k: int| 0 <= k < ids@.len() ==> ids@[k] < v@.len(),
            forall|k: int| 0 <= k < i ==> !set_of(v@).contains(#[trigger] ids@[k]),
        decreases ids@.len() - i,
    {
        if v[ids[i]] {
            assert(set_of(v@).contains(ids@[i as int]));
            return false;
        }
        i = i + 1;
    }
    true
}

/// Least model of the reduct of `rules` with respect to the atoms marked in
/// `guess`: the atoms derivable from the rules that have a head and no negative
/// body atom marked, ignoring their negative literals.
pub fn least_model(n: usize, rules: &Vec<GRule>, guess: &Vec<bool>) -> (m: Vec<bool>)
    requires
        guess@.len() == n,
        rules_in(rules@, n as nat),
    ensures
        m@.len() == n,
        set_of(m@) == lm(rules@, set_of(guess@)),
{
    let ghost s = set_of(guess@);
    let mut model = filled(n, false);
    assert(set_of(model@) =~= Set::<usize>::empty());
    loop
        invariant
            model@.len() == n,
            guess@.len() == n,
            rules_in(rules@, n as nat),
            s == set_of(guess@),
            forall|m: Set<usize>| #[trigger] closed(rules@, s, m) ==> set_of(model@).subset_of(m),
        decreases nfalse(model@),
    {
        let ghost start = model@;
        let mut changed = false;
        let mut i: usize = 0;
        while i < rules.len()
            invariant
                i <= rules@.len(),
                model@.len() == n,
                guess@.len() == n,
                rules_in(rules@, n as nat),
                s == set_of(guess@),
                forall|m: Set<usize>| #[trigger] closed(rules@, s, m) ==> set_of(model@).subset_of(m),
                !changed ==> model@ == start,
                changed ==> nfalse(model@) < nfalse(start),
                !changed ==> forall|j: int| 0 <= j < i && active(#[trigger] rules@[j], s) && pos_in(rules@[j], set_of(model@))
                    ==> set_of(model@).contains(rules@[j].head->0),
            decreases rules@.len() - i,
        {
            let r = &rules[i];
            assert(*r == rules@[i as int]);
            if let Some(h) = r.head {
                if !model[h] && none_marked(&r.neg, guess) && all_marked(&r.pos, &model) {
                    let ghost before = model@;
                    proof {
                        lemma_nfalse_set(before, h as int);
                        assert forall|m: Set<usize>| #[trigger] closed(rules@, s, m) implies set_of(before.update(h as int, true)).subset_of(m) by {
                            assert(active(rules@[i as int], s));
                            assert(pos_in(rules@[i as int], set_of(before)));
                            assert(pos_in(rules@[i as int], m));
                        }
                    }
                    model.set(h, true);
                    changed = true;
                }
            }
            i = i + 1;
        }
        if !changed {
            proof {
                assert(closed(rules@, s, set_of(model@)));
                assert(set_of(model@) =~= lm(rules@, s));
            }
            return model;
        }
    }
}


/// Strictly increasing.
pub open spec fn ascending(s: Seq<usize>) -> bool {
    forall|i: int, j: int| 0 <= i < j < s.len() ==> s[i] < s[j]
}

/// The atoms that occur negated somewhere in `rules`.
pub open spec fn negated(rules: Seq<GRule>) -> Set<usize> {
    Set::new(|x: usize| exists|i: int, k: int| 0 <= i < rules.len() && 0 <= k < rules[i].neg@.len() && #[trigger] rules[i].neg@[k] == x)
}

/// Insert `x` into a strictly increasing vector, keeping it so.
pub fn insert_ascending(v: &mut Vec<usize>, x: usize)
    requires
        ascending(old(v)@),
    ensures
        ascending(final(v)@),
        final(v)@.to_set() == old(v)@.to_set().insert(x),
{
    let mut i: usize = 0;
    while i < v.len() && v[i] < x
        invariant
            i <= v@.len(),
            forall|q: int| 0 <= q < i ==> v@[q] < x,
        decreases v@.len() - i,
    {
        i = i + 1;
    }
    if i < v.len() && v[i] == x {
        assert(v@.to_set() =~= v@.to_set().insert(x)) by {
            assert(v@.contains(x)) by { assert(v@[i as int] == x); }
        }
        return;
    }
    let ghost old_v = v@;
    v.insert(i, x);
    proof {
        assert forall|a: int, b: int| 0 <= a < b < v@.len() implies v@[a] < v@[b] by {
            if a < i && b > i { assert(v@[b] == old_v[b - 1]); }
            if a > i { assert(v@[a] == old_v[a - 1]); assert(v@[b] == old_v[b - 1]); }
            if a == i && b > i { assert(v@[b] == old_v[b - 1]); assert(old_v[i as int] != x); }
        }
        assert forall|y: usize| v@.to_set().contains(y) <==> old_v.to_set().insert(x).contains(y) by {
            if v@.contains(y) {
                let k = choose|k: int| 0 <= k < v@.len() && v@[k] == y;
                if k < i { assert(old_v[k] == y); } else if k > i { assert(old_v[k - 1] == y); }
            }
            if old_v.contains(y) {
                let k = choose|k: int| 0 <= k < old_v.len() && old_v[k] == y;
                if k < i { assert(v@[k] == y); } else { assert(v@[k + 1] == y); }
            }
            if y == x { assert(v@[i as int] == x); }
        }
        assert(v@.to_set() =~= old_v.to_set().insert(x));
    }
}

/// The distinct atoms occurring negated, ascending.
fn negated_atoms(rules: &Vec<GRule>) -> (na: Vec<usize>)
    ensures
        ascending(na@),
        na@.to_set() == negated(rules@),
{
    let mut na: Vec<usize> = Vec::new();
    let mut i: usize = 0;
    assert(na@.to_set() =~= negated(rules@.take(0)));
    while i < rules.len()
        invariant
            i <= rules@.len(),
            ascending(na@),
            na@.to_set() == negated(rules@.take(i as int)),
        decreases rules@.len() - i,
    {
        let r = &rules[i];
        let mut k: usize = 0;
        while k < r.neg.len()
            invariant
                k <= r.neg@.len(),
                *r == rules@[i as int],
                i < rules@.len(),
                ascending(na@),
                na@.to_set() == negated(rules@.take(i as int)).union(r.neg@.take(k as int).to_set()),
            decreases r.neg@.len() - k,
        {
            insert_ascending(&mut na, r.neg[k]);
            proof {
                assert(r.neg@.take(k + 1) =~= r.neg@.take(k as int).push(r.neg@[k as int]));
                crate::math::lemma_push_to_set(r.neg@.take(k as int), r.neg@[k as int]);
                assert(na@.to_set() =~= negated(rules@.take(i as int)).union(r.neg@.take(k + 1).to_set()));
            }
            k = k + 1;
        }
        proof {
            let pre = rules@.take(i as int);
            let post = rules@.take(i + 1);
            assert(r.neg@.take(r.neg@.len() as int) =~= r.neg@);
            assert forall|x: usize| negated(post).contains(x) <==> negated(pre).union(r.neg@.to_set()).contains(x) by {
                if negated(post).contains(x) {
                    let (a, b) = choose|a: int, b: int| 0 <= a < post.len() && 0 <= b < post[a].neg@.len() && #[trigger] post[a].neg@[b] == x;
                    if a < i { assert(pre[a] == post[a]); assert(negated(pre).contains(x)); }
                    else { assert(r.neg@[b] == x); assert(r.neg@.contains(x)); }
                }
                if negated(pre).contains(x) {
                    let (a, b) = choose|a: int, b: int| 0 <= a < pre.len() && 0 <= b < pre[a].neg@.len() && #[trigger] pre[a].neg@[b] == x;
                    assert(post[a] == pre[a]);
                    assert(post[a].neg@[b] == x);
                }
                if r.neg@.contains(x) {
                    let b = choose|b: int| 0 <= b < r.neg@.len() && r.neg@[b] == x;
                    assert(post[i as int] == *r);
                    assert(post[i as int].neg@[b] == x);
                }
            }
            assert(negated(post) =~= negated(pre).union(r.neg@.to_set()));
        }
        i = i + 1;
    }
    assert(rules@.take(rules@.len() as int) =~= rules@);
    na
}


/// The reduct, and so the least model, sees `s` only through the negated atoms.
proof fn lemma_lm_congruence(rules: Seq<GRule>, s1: Set<usize>, s2: Set<usize>)
    requires
        forall|x: usize| #[trigger] negated(rules).contains(x) ==> (s1.contains(x) <==> s2.contains(x)),
    ensures
        lm(rules, s1) == lm(rules, s2),
        forall|i: int| 0 <= i < rules.len() ==> neg_out(#[trigger] rules[i], s1) == neg_out(rules[i], s2),
{
    assert forall|i: int| 0 <= i < rules.len() implies neg_out(#[trigger] rules[i], s1) == neg_out(rules[i], s2) by {
        assert forall|k: int| 0 <= k < rules[i].neg@.len() implies s1.contains(#[trigger] rules[i].neg@[k]) == s2.contains(rules[i].neg@[k]) by {
            assert(negated(rules).contains(rules[i].neg@[k]));
        }
    }
    assert forall|m: Set<usize>| closed(rules, s1, m) == closed(rules, s2, m) by {
        if closed(rules, s1, m) {
            assert forall|i: int| 0 <= i < rules.len() && active(#[trigger] rules[i], s2) && pos_in(rules[i], m) implies m.contains(rules[i].head->0) by {
                assert(neg_out(rules[i], s1) == neg_out(rules[i], s2));
            }
        }
        if closed(rules, s2, m) {
            assert forall|i: int| 0 <= i < rules.len() && active(#[trigger] rules[i], s1) && pos_in(rules[i], m) implies m.contains(rules[i].head->0) by {
                assert(neg_out(rules[i], s1) == neg_out(rules[i], s2));
            }
        }
    }
    assert(lm(rules, s1) =~= lm(rules, s2));
}

/// Least models only hold atoms of the table.
proof fn lemma_lm_in_range(rules: Seq<GRule>, s: Set<usize>, n: nat)
    requires
        rules_in(rules, n),
    ensures
        forall|a: usize| #[trigger] lm(rules, s).contains(a) ==> a < n,
{
    let all = Set::new(|a: usize| a < n);
    assert(closed(rules, s, all));
}

/// The marked ids, ascending.
pub fn ids_of(v: &Vec<bool>) -> (ids: Vec<usize>)
    ensures
        ascending(ids@),
        ids@.to_set() == set_of(v@),
        forall|k: int| 0 <= k < ids@.len() ==> ids@[k] < v@.len(),
{
    let mut ids: Vec<usize> = Vec::new();
    let mut i: usize = 0;
    while i < v.len()
        invariant
            i <= v@.len(),
            ascending(ids@),
            forall|k: int| 0 <= k < ids@.len() ==> ids@[k] < i,
            ids@.to_set() == Set::new(|x: usize| x < i && v@[x as int]),
        decreases v@.len() - i,
    {
        let ghost old_ids = ids@;
        if v[i] {
            ids.push(i);
            proof { crate::math::lemma_push_to_set(old_ids, i); }
        }
        assert(ids@.to_set() =~= Set::new(|x: usize| x < i + 1 && v@[x as int]));
        i = i + 1;
    }
    assert(ids@.to_set() =~= set_of(v@));
    ids
}

/// `s` and `g` agree on the first `i` negated atoms `na[..i]`.
pub open spec fn agrees(s: Set<usize>, g: Set<usize>, na: Seq<usize>, i: int) -> bool {
    forall|j: int| 0 <= j < i ==> (s.contains(#[trigger] na[j]) <==> g.contains(na[j]))
}

/// Visit every guess that extends `guess` over `na[i..]`, recording the least
/// model of each guess that it reproduces and that violates no constraint.
fn enumerate(n: usize, rules: &Vec<GRule>, na: &Vec<usize>, i: usize, guess: &mut Vec<bool>, out: &mut Vec<Vec<usize>>)
    requires
        rules_in(rules@, n as nat),
        old(guess)@.len() == n,
        i <= na@.len(),
        ascending(na@),
        na@.to_set() == negated(rules@),
        forall|k: int| 0 <= k < na@.len() ==> na@[k] < n,
        set_of(old(guess)@).subset_of(na@.take(i as int).to_set()),
    ensures
        final(guess)@ == old(guess)@,
        final(out)@.len() >= old(out)@.len(),
        final(out)@.take(old(out)@.len() as int) == old(out)@,
        forall|k: int| old(out)@.len() <= k < final(out)@.len() ==> {
            &&& ascending(#[trigger] final(out)@[k]@)
            &&& stable(rules@, final(out)@[k]@.to_set())
            &&& agrees(final(out)@[k]@.to_set(), set_of(old(guess)@), na@, i as int)
        },
        forall|k1: int, k2: int| old(out)@.len() <= k1 < k2 < final(out)@.len()
            ==> (#[trigger] final(out)@[k1])@.to_set() != (#[trigger] final(out)@[k2])@.to_set(),
        forall|s: Set<usize>| #[trigger] stable(rules@, s) && agrees(s, set_of(old(guess)@), na@, i as int)
            ==> exists|k: int| old(out)@.len() <= k < final(out)@.len() && (#[trigger] final(out)@[k])@.to_set() == s,
    decreases na@.len() - i,
{
    let ghost g0 = guess@;
    let ghost out0 = out@;
    if i == na.len() {
        let m = least_model(n, rules, guess);
        let ghost gs = set_of(guess@);
        let ghost ms = set_of(m@);
        let mut agree = true;
        let mut j: usize = 0;
        while j < na.len()
            invariant
                j <= na@.len(),
                m@.len() == n,
                guess@.len() == n,
                forall|k: int| 0 <= k < na@.len() ==> na@[k] < n,
                agree == forall|q: int| 0 <= q < j ==> (set_of(m@).contains(#[trigger] na@[q]) <==> set_of(guess@).contains(na@[q])),
            decreases na@.len() - j,
        {
            if m[na[j]] != guess[na[j]] {
                agree = false;
            }
            j = j + 1;
        }
        if !agree {
            proof {
                assert forall|s: Set<usize>| #[trigger] stable(rules@, s) && agrees(s, gs, na@, i as int) implies false by {
                    assert forall|x: usize| #[trigger] negated(rules@).contains(x) implies (s.contains(x) <==> gs.contains(x)) by {
                        assert(na@.to_set().contains(x));
                        let q = choose|q: int| 0 <= q < na@.len() && na@[q] == x;
                    }
                    lemma_lm_congruence(rules@, s, gs);
                    assert(s == ms);
                    let q = choose|q: int| 0 <= q < na@.len() && !(ms.contains(#[trigger] na@[q]) <==> gs.contains(na@[q]));
                }
            }
            return;
        }
        // agreement: the guess is exactly the model's negated atoms
        proof {
            assert forall|x: usize| #[trigger] negated(rules@).contains(x) implies (ms.contains(x) <==> gs.contains(x)) by {
                assert(na@.to_set().contains(x));
                let q = choose|q: int| 0 <= q < na@.len() && na@[q] == x;
                assert(ms.contains(na@[q]) <==> gs.contains(na@[q]));
            }
            lemma_lm_congruence(rules@, ms, gs);
        }
        let mut violated = false;
        let mut k: usize = 0;
        while k < rules.len()
            invariant
                k <= rules@.len(),
                rules_in(rules@, n as nat),
                m@.len() == n,
                guess@.len() == n,
                forall|i2: int| 0 <= i2 < rules@.len() ==> neg_out(#[trigger] rules@[i2], set_of(m@)) == neg_out(rules@[i2], set_of(guess@)),
                violated == exists|q: int| 0 <= q < k && (#[trigger] rules@[q]).head is None
                    && pos_in(rules@[q], set_of(m@)) && neg_out(rules@[q], set_of(m@)),
            decreases rules@.len() - k,
        {
            let r = &rules[k];
            assert(*r == rules@[k as int]);
            if r.head.is_none() && none_marked(&r.neg, guess) && all_marked(&r.pos, &m) {
                violated = true;
            }
            k = k + 1;
        }
        if violated {
            proof {
                assert forall|s: Set<usize>| #[trigger] stable(rules@, s) && agrees(s, gs, na@, i as int) implies false by {
                    assert forall|x: usize| #[trigger] negated(rules@).contains(x) implies (s.contains(x) <==> gs.contains(x)) by {
                        assert(na@.to_set().contains(x));
                        let q = choose|q: int| 0 <= q < na@.len() && na@[q] == x;
                    }
                    lemma_lm_congruence(rules@, s, gs);
                    assert(s == ms);
                    let q = choose|q: int| 0 <= q < k && (#[trigger] rules@[q]).head is None
                        && pos_in(rules@[q], ms) && neg_out(rules@[q], ms);
                }
            }
            return;
        }
        let ids = ids_of(&m);
        out.push(ids);
        proof {
            assert(ms == lm(rules@, ms));
            assert(stable(rules@, ms));
            assert(out@[out0.len() as int]@.to_set() == ms);
            assert(out@.take(out0.len() as int) =~= out0);
            assert(agrees(ms, gs, na@, i as int)) by {
                assert forall|j2: int| 0 <= j2 < i implies (ms.contains(#[trigger] na@[j2]) <==> gs.contains(na@[j2])) by {}
            }
            assert forall|s: Set<usize>| #[trigger] stable(rules@, s) && agrees(s, gs, na@, i as int)
                implies exists|k2: int| out0.len() <= k2 < out@.len() && (#[trigger] out@[k2])@.to_set() == s by {
                assert forall|x: usize| #[trigger] negated(rules@).contains(x) implies (s.contains(x) <==> gs.contains(x)) by {
                    assert(na@.to_set().contains(x));
                    let q = choose|q: int| 0 <= q < na@.len() && na@[q] == x;
                }
                lemma_lm_congruence(rules@, s, gs);
                assert(s == ms);
                assert(out@[out0.len() as int]@.to_set() == s);
            }
        }
        return;
    }
    let x = na[i];
    proof {
        assert(!guess@[x as int]) by {
            if guess@[x as int] {
                assert(set_of(guess@).contains(x));
                assert(na@.take(i as int).to_set().contains(x));
                let q = choose|q: int| 0 <= q < i && na@.take(i as int)[q] == x;
                assert(na@[q] < na@[i as int]);
            }
        }
        assert(na@.take(i + 1) =~= na@.take(i as int).push(x));
        crate::math::lemma_push_to_set(na@.take(i as int), x);
    }
    enumerate(n, rules, na, i + 1, guess, out);
    let ghost out1 = out@;
    guess.set(x, true);
    proof {
        assert(set_of(guess@) =~= set_of(g0).insert(x));
    }
    enumerate(n, rules, na, i + 1, guess, out);
    let ghost out2 = out@;
    guess.set(x, false);
    proof {
        assert(guess@ =~= g0);
        let gs0 = set_of(g0);
        let gs1 = set_of(g0).insert(x);
        assert(out2.take(out0.len() as int) =~= out0) by {
            assert forall|q: int| 0 <= q < out0.len() implies out2[q] == out0[q] by {
                assert(out2.take(out1.len() as int)[q] == out1[q]);
                assert(out1.take(out0.len() as int)[q] == out0[q]);
            }
        }
        assert forall|k: int| out0.len() <= k < out2.len() implies {
            &&& ascending(#[trigger] out2[k]@)
            &&& stable(rules@, out2[k]@.to_set())
            &&& agrees(out2[k]@.to_set(), gs0, na@, i as int)
        } by {
            if k < out1.len() {
                assert(out2.take(out1.len() as int)[k] == out1[k]);
                assert(agrees(out1[k]@.to_set(), gs0, na@, (i + 1) as int));
            } else {
                assert(agrees(out2[k]@.to_set(), gs1, na@, (i + 1) as int));
                assert forall|j2: int| 0 <= j2 < i implies (out2[k]@.to_set().contains(#[trigger] na@[j2]) <==> gs0.contains(na@[j2])) by {
                    assert(na@[j2] != x) by { assert(na@[j2] < na@[i as int]); }
                }
            }
        }
        assert forall|k1: int, k2: int| out0.len() <= k1 < k2 < out2.len()
            implies (#[trigger] out2[k1])@.to_set() != (#[trigger] out2[k2])@.to_set() by {
            if k2 < out1.len() {
                assert(out2.take(out1.len() as int)[k1] == out1[k1]);
                assert(out2.take(out1.len() as int)[k2] == out1[k2]);
            } else if k1 < out1.len() {
                assert(out2.take(out1.len() as int)[k1] == out1[k1]);
                assert(agrees(out1[k1]@.to_set(), gs0, na@, (i + 1) as int));
                assert(agrees(out2[k2]@.to_set(), gs1, na@, (i + 1) as int));
                assert(!out1[k1]@.to_set().contains(na@[i as int]));
                assert(out2[k2]@.to_set().contains(na@[i as int]));
            }
        }
        assert forall|s: Set<usize>| #[trigger] stable(rules@, s) && agrees(s, gs0, na@, i as int)
            implies exists|k: int| out0.len() <= k < out2.len() && (#[trigger] out2[k])@.to_set() == s by {
            if s.contains(x) {
                assert(agrees(s, gs1, na@, (i + 1) as int)) by {
                    assert forall|j2: int| 0 <= j2 < i + 1 implies (s.contains(#[trigger] na@[j2]) <==> gs1.contains(na@[j2])) by {
                        if j2 < i { assert(na@[j2] != x) by { assert(na@[j2] < na@[i as int]); } }
                    }
                }
                let k = choose|k: int| out1.len() <= k < out2.len() && (#[trigger] out2[k])@.to_set() == s;
            } else {
                assert(agrees(s, gs0, na@, (i + 1) as int));
                let k = choose|k: int| out0.len() <= k < out1.len() && (#[trigger] out1[k])@.to_set() == s;
                assert(out2.take(out1.len() as int)[k] == out1[k]);
                assert(out2[k]@.to_set() == s);
            }
        }
    }
}


proof fn lemma_ascending_no_dup(s: Seq<usize>)
    requires
        ascending(s),
    ensures
        s.no_duplicates(),
        s.len() == s.to_set().len(),
{
    assert forall|i: int, j: int| 0 <= i < s.len() && 0 <= j < s.len() && i != j implies s[i] != s[j] by {
        if i < j { assert(s[i] < s[j]); } else { assert(s[j] < s[i]); }
    }
    s.unique_seq_to_set();
}

/// `ids` lists every stable model of `rules` exactly once, each ascending.
pub open spec fn lists_stable(rules: Seq<GRule>, ids: Seq<Seq<usize>>) -> bool {
    &&& forall|k: int| 0 <= k < ids.len() ==> ascending(#[trigger] ids[k]) && stable(rules, ids[k].to_set())
    &&& forall|k1: int, k2: int| 0 <= k1 < k2 < ids.len() ==> (#[trigger] ids[k1]).to_set() != (#[trigger] ids[k2]).to_set()
    &&& forall|s: Set<usize>| #[trigger] stable(rules, s) ==> exists|k: int| 0 <= k < ids.len() && (#[trigger] ids[k]).to_set() == s
}

/// Stable models of a set of ground rules, by guessing the negated atoms and
/// confirming that the least model of the reduct reproduces the guess.
fn stable_models(n_atoms: usize, rules: &Vec<GRule>) -> (r: Result<Vec<Vec<usize>>, AspError>)
    requires
        rules_in(rules@, n_atoms as nat),
    ensures
        r is Err <==> negated(rules@).len() > MAX_GUESS_ATOMS,
        r matches Err(e) ==> e == AspError::TooManyChoices(negated(rules@).len() as usize),
        r matches Ok(ms) ==> lists_stable(rules@, ms@.map_values(|v: Vec<usize>| v@))
            && forall|k: int| 0 <= k < ms@.len() ==> forall|j: int| 0 <= j < (#[trigger] ms@[k])@.len() ==> ms@[k]@[j] < n_atoms,
{
    let na = negated_atoms(rules);
    proof {
        lemma_ascending_no_dup(na@);
        assert forall|k: int| 0 <= k < na@.len() implies na@[k] < n_atoms by {
            assert(na@.to_set().contains(na@[k]));
            let (i, j) = choose|i: int, j: int| 0 <= i < rules@.len() && 0 <= j < rules@[i].neg@.len() && #[trigger] rules@[i].neg@[j] == na@[k];
        }
    }
    if na.len() > MAX_GUESS_ATOMS {
        return Err(AspError::TooManyChoices(na.len()));
    }
    let mut guess = filled(n_atoms, false);
    let mut out: Vec<Vec<usize>> = Vec::new();
    proof {
        assert(set_of(guess@) =~= Set::<usize>::empty());
    }
    enumerate(n_atoms, rules, &na, 0, &mut guess, &mut out);
    proof {
        let ids = out@.map_values(|v: Vec<usize>| v@);
        assert(out@.take(0) =~= Seq::<Vec<usize>>::empty());
        assert forall|k: int| 0 <= k < ids.len() implies ascending(#[trigger] ids[k]) && stable(rules@, ids[k].to_set()) by {
            assert(ids[k] == out@[k]@);
        }
        assert forall|k1: int, k2: int| 0 <= k1 < k2 < ids.len() implies (#[trigger] ids[k1]).to_set() != (#[trigger] ids[k2]).to_set() by {
            assert(ids[k1] == out@[k1]@ && ids[k2] == out@[k2]@);
        }
        assert forall|s: Set<usize>| #[trigger] stable(rules@, s) implies exists|k: int| 0 <= k < ids.len() && (#[trigger] ids[k]).to_set() == s by {
            assert(agrees(s, set_of(guess@), na@, 0));
            let k = choose|k: int| 0 <= k < out@.len() && (#[trigger] out@[k])@.to_set() == s;
            assert(ids[k] == out@[k]@);
        }
        assert forall|k: int| 0 <= k < out@.len() implies forall|j: int| 0 <= j < (#[trigger] out@[k])@.len() ==> out@[k]@[j] < n_atoms by {
            let l = out@[k]@;
            assert forall|j: int| 0 <= j < l.len() implies l[j] < n_atoms by {
                assert(l.to_set().contains(l[j]));
                lemma_lm_in_range(rules@, l.to_set(), n_atoms as nat);
            }
        }
    }
    Ok(out)
}

/// An exact copy of a value.
pub fn copy_val(v: &Val) -> (r: Val)
    ensures
        r == *v,
{
    match v {
        Val::Sym(s) => Val::Sym(s.clone()),
        Val::Int(i) => Val::Int(*i),
    }
}

/// A copy of a ground atom.
pub fn copy_atom(a: &GroundAtom) -> (r: GroundAtom)
    ensures
        av(r) == av(*a),
{
    let mut args: Vec<Val> = Vec::new();
    let mut i: usize = 0;
    while i < a.1.len()
        invariant
            i <= a.1@.len(),
            args@ == a.1@.take(i as int),
        decreases a.1@.len() - i,
    {
        args.push(copy_val(&a.1[i]));
        proof { assert(a.1@.take(i + 1) =~= a.1@.take(i as int).push(a.1@[i as int])); }
        i = i + 1;
    }
    assert(a.1@.take(a.1@.len() as int) =~= a.1@);
    (a.0.clone(), args)
}

/// The atoms (by view) that the ids `l` stand for in `g`.
pub open spec fn model_atoms(g: Ground, l: Seq<usize>) -> Multiset<AtomView> {
    l.map_values(|id: usize| av(g.atoms@[id as int])).to_multiset()
}

/// `ms` is the answer list of `g`: every stable model exactly once, each as its
/// atoms in ascending order, the models in ascending order.
pub open spec fn answer_list(g: Ground, ms: Seq<Vec<GroundAtom>>) -> bool {
    &&& exists|ids: Seq<Seq<usize>>, each: Seq<Seq<AtomView>>|
        #![trigger lists_stable(g.rules@, ids), each.to_multiset()]
        lists_stable(g.rules@, ids) && each.len() == ids.len()
        && (forall|k: int| 0 <= k < ids.len() ==> (#[trigger] each[k]).to_multiset() == model_atoms(g, ids[k]))
        && mvs(ms).to_multiset() == each.to_multiset()
    &&& forall|i: int| 0 <= i < ms.len() ==> sorted_by(mv((#[trigger] ms[i])@), ord_atom_fn())
    &&& sorted_by(mvs(ms), ord_model_fn())
}

/// Resolve interned model ids back to sorted ground atoms, sorted for determinism.
fn resolve_models(g: &Ground, models: Vec<Vec<usize>>) -> (out: Vec<Vec<GroundAtom>>)
    requires
        forall|k: int| 0 <= k < models@.len() ==> forall|j: int| 0 <= j < (#[trigger] models@[k])@.len() ==> models@[k]@[j] < g.atoms@.len(),
    ensures
        exists|each: Seq<Seq<AtomView>>| #![trigger each.to_multiset()]
            each.len() == models@.len()
            && (forall|k: int| 0 <= k < models@.len() ==> (#[trigger] each[k]).to_multiset() == model_atoms(*g, models@[k]@))
            && mvs(out@).to_multiset() == each.to_multiset(),
        forall|i: int| 0 <= i < out@.len() ==> sorted_by(mv((#[trigger] out@[i])@), ord_atom_fn()),
        sorted_by(mvs(out@), ord_model_fn()),
{
    let mut each: Vec<Vec<GroundAtom>> = Vec::new();
    let mut k: usize = 0;
    while k < models.len()
        invariant
            k <= models@.len(),
            each@.len() == k,
            forall|k2: int| 0 <= k2 < models@.len() ==> forall|j: int| 0 <= j < (#[trigger] models@[k2])@.len() ==> models@[k2]@[j] < g.atoms@.len(),
            forall|k2: int| 0 <= k2 < k ==> mv((#[trigger] each@[k2])@).to_multiset() == model_atoms(*g, models@[k2]@),
            forall|k2: int| 0 <= k2 < k ==> sorted_by(mv((#[trigger] each@[k2])@), ord_atom_fn()),
        decreases models@.len() - k,
    {
        let l = &models[k];
        let mut atoms: Vec<GroundAtom> = Vec::new();
        let mut j: usize = 0;
        while j < l.len()
            invariant
                j <= l@.len(),
                *l == models@[k as int],
                k < models@.len(),
                forall|k2: int| 0 <= k2 < models@.len() ==> forall|j2: int| 0 <= j2 < (#[trigger] models@[k2])@.len() ==> models@[k2]@[j2] < g.atoms@.len(),
                mv(atoms@) == l@.take(j as int).map_values(|id: usize| av(g.atoms@[id as int])),
            decreases l@.len() - j,
        {
            let a = copy_atom(&g.atoms[l[j]]);
            let ghost old_atoms = atoms@;
            let ghost ga = av(a);
            atoms.push(a);
            proof {
                let f = |id: usize| av(g.atoms@[id as int]);
                assert(mv(atoms@) =~= mv(old_atoms).push(ga));
                assert(l@.take(j + 1) =~= l@.take(j as int).push(l@[j as int]));
                assert(l@.take(j + 1).map_values(f) =~= l@.take(j as int).map_values(f).push(f(l@[j as int])));
                assert(mv(atoms@) =~= l@.take(j + 1).map_values(|id: usize| av(g.atoms@[id as int])));
            }
            j = j + 1;
        }
        assert(l@.take(l@.len() as int) =~= l@);
        let sorted = sort_atoms(atoms);
        each.push(sorted);
        k = k + 1;
    }
    let ghost each_v = mvs(each@);
    let out = sort_models(each);
    proof {
        assert forall|k2: int| 0 <= k2 < models@.len() implies (#[trigger] each_v[k2]).to_multiset() == model_atoms(*g, models@[k2]@) by {
            assert(each_v[k2] == mv(each@[k2]@));
        }
        assert forall|i: int| 0 <= i < out@.len() implies sorted_by(mv((#[trigger] out@[i])@), ord_atom_fn()) by {
            assert(mvs(out@).to_multiset().count(mvs(out@)[i]) > 0) by {
                broadcast use vstd::seq_lib::group_to_multiset_ensures;
                assert(mvs(out@)[i] == mv(out@[i]@));
                assert(mvs(out@).contains(mvs(out@)[i]));
            }
            broadcast use vstd::seq_lib::group_to_multiset_ensures;
            assert(each_v.to_multiset().count(mv(out@[i]@)) > 0);
            assert(each_v.contains(mv(out@[i]@)));
            let k2 = choose|k2: int| 0 <= k2 < each_v.len() && each_v[k2] == mv(out@[i]@);
            assert(each_v[k2] == mv(each@[k2]@));
        }
    }
    out
}

/// Stable models of an already-grounded program, as sorted ground-atom lists.
pub fn stable_models_of(g: &Ground) -> (r: Result<Vec<Vec<GroundAtom>>, AspError>)
    requires
        ground_wf(*g),
    ensures
        r is Err <==> negated(g.rules@).len() > MAX_GUESS_ATOMS,
        r matches Err(e) ==> e == AspError::TooManyChoices(negated(g.rules@).len() as usize),
        r matches Ok(ms) ==> answer_list(*g, ms@),
{
    let models = match stable_models(g.atoms.len(), &g.rules) {
        Ok(m) => m,
        Err(e) => return Err(e),
    };
    let ghost ids = models@.map_values(|v: Vec<usize>| v@);
    let out = resolve_models(g, models);
    proof {
        let each = choose|each: Seq<Seq<AtomView>>| #![trigger each.to_multiset()]
            each.len() == models@.len()
            && (forall|k: int| 0 <= k < models@.len() ==> (#[trigger] each[k]).to_multiset() == model_atoms(*g, models@[k]@))
            && mvs(out@).to_multiset() == each.to_multiset();
        assert forall|k: int| 0 <= k < ids.len() implies (#[trigger] each[k]).to_multiset() == model_atoms(*g, ids[k]) by {
            assert(ids[k] == models@[k]@);
        }
        assert(lists_stable(g.rules@, ids));
    }
    Ok(out)
}

} // verus!
