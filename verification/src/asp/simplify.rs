//! Simplify a ground program before it reaches the solver: drop rules with
//! definitely-false bodies, substitute certain facts, remove duplicate and
//! subsumed rules. The simplification preserves the answer sets.
//!
//! Two fixpoints drive it:
//! - **`poss`** — the least model with negation ignored; an atom outside it is
//!   definitely false.
//! - **`cert`** — the deterministic consequences (a rule fires for certain
//!   when its positive body is certain and every negated atom impossible); an
//!   atom in it is definitely true.
use vstd::prelude::*;
use crate::asp::{
    GRule, Ground, GroundAtom, active, ascending, closed, constraints_hold, copy_atom, filled,
    ground_wf, ids_of, insert_ascending, least_model, lm, neg_out, pos_in, rules_in, set_of, stable,
};
use crate::asp::order::{av, mv, mvs, AtomView};
use crate::asp::{answer_list, lists_stable, model_atoms, negated};

verus! {

/// What a rule says: its head, positive body and negative body.
pub type RuleView = (Option<usize>, Seq<usize>, Seq<usize>);

pub open spec fn rv(r: GRule) -> RuleView {
    (r.head, r.pos@, r.neg@)
}

pub open spec fn rvs(rules: Seq<GRule>) -> Seq<RuleView> {
    rules.map_values(|r: GRule| rv(r))
}

/// The atoms that can possibly be true: the least model ignoring negation.
pub open spec fn poss_of(rules: Seq<GRule>) -> Set<usize> {
    lm(rules, Set::empty())
}

/// The atoms certainly true: the least model of the rules whose negated atoms
/// are all impossible.
pub open spec fn cert_of(rules: Seq<GRule>) -> Set<usize> {
    lm(rules, poss_of(rules))
}

/// The elements of `s` outside `c`, in order.
pub open spec fn drop_in(s: Seq<usize>, c: Set<usize>) -> Seq<usize>
    decreases s.len(),
{
    if s.len() == 0 { s } else {
        let p = drop_in(s.drop_last(), c);
        if c.contains(s.last()) { p } else { p.push(s.last()) }
    }
}

/// The elements of `s` inside `c`, in order.
pub open spec fn keep_in(s: Seq<usize>, c: Set<usize>) -> Seq<usize>
    decreases s.len(),
{
    if s.len() == 0 { s } else {
        let p = keep_in(s.drop_last(), c);
        if c.contains(s.last()) { p.push(s.last()) } else { p }
    }
}

/// A rule whose body can hold at all: every positive atom possible, no
/// negated atom certain.
pub open spec fn live(r: RuleView, p: Set<usize>, c: Set<usize>) -> bool {
    r.1.to_set().subset_of(p) && r.2.to_set().disjoint(c)
}

/// Fact substitution: certain positive atoms and impossible negated atoms
/// leave the body.
pub open spec fn substitute(r: RuleView, p: Set<usize>, c: Set<usize>) -> RuleView {
    (r.0, drop_in(r.1, c), keep_in(r.2, p))
}

/// The live rules, substituted, in order.
pub open spec fn shrink(rules: Seq<RuleView>, p: Set<usize>, c: Set<usize>) -> Seq<RuleView>
    decreases rules.len(),
{
    if rules.len() == 0 { Seq::empty() } else {
        let prev = shrink(rules.drop_last(), p, c);
        if live(rules.last(), p, c) { prev.push(substitute(rules.last(), p, c)) } else { prev }
    }
}

/// Same head and the same body sets.
#[verifier::opaque]
pub open spec fn same_key(a: RuleView, b: RuleView) -> bool {
    a.0 == b.0 && a.1.to_set() == b.1.to_set() && a.2.to_set() == b.2.to_set()
}

/// The ascending listing of a finite set of atoms.
pub open spec fn listing(s: Set<usize>) -> Seq<usize> {
    choose|l: Seq<usize>| ascending(l) && l.to_set() == s
}

/// A rule with its bodies sorted and without repeats.
pub open spec fn canon(r: RuleView) -> RuleView {
    (r.0, listing(r.1.to_set()), listing(r.2.to_set()))
}

/// The first rule of each key, canonical.
pub open spec fn dedup(rules: Seq<RuleView>) -> Seq<RuleView>
    decreases rules.len(),
{
    if rules.len() == 0 { Seq::empty() } else {
        let prev = dedup(rules.drop_last());
        if exists|k: int| 0 <= k < prev.len() && same_key(#[trigger] prev[k], rules.last()) { prev } else { prev.push(canon(rules.last())) }
    }
}

/// `a` is strictly more general than `b`: same head, a smaller body whose
/// positive and negative parts are subsets of `b`'s.
pub open spec fn subsumes(a: RuleView, b: RuleView) -> bool {
    &&& a.0 == b.0
    &&& a.1.len() + a.2.len() < b.1.len() + b.2.len()
    &&& a.1.to_set().subset_of(b.1.to_set())
    &&& a.2.to_set().subset_of(b.2.to_set())
}

/// The rules of `u[..k]` that no rule of `u` subsumes.
pub open spec fn desubsume(u: Seq<RuleView>, k: int) -> Seq<RuleView>
    decreases k,
{
    if k <= 0 { Seq::empty() } else {
        let prev = desubsume(u, k - 1);
        if exists|j: int| 0 <= j < u.len() && #[trigger] subsumes(u[j], u[k - 1]) { prev } else { prev.push(u[k - 1]) }
    }
}

/// The rules of the simplified program.
pub open spec fn simplified(rules: Seq<GRule>) -> Seq<RuleView> {
    let u = dedup(shrink(rvs(rules), poss_of(rules), cert_of(rules)));
    desubsume(u, u.len() as int)
}


proof fn lemma_ascending_unique(a: Seq<usize>, b: Seq<usize>)
    requires
        ascending(a),
        ascending(b),
        a.to_set() == b.to_set(),
    ensures
        a == b,
    decreases a.len(),
{
    if a.len() == 0 {
        if b.len() > 0 { assert(b.to_set().contains(b[0])); }
        assert(a =~= b);
    } else {
        assert(a.to_set().contains(a[0]));
        assert(b.to_set().contains(b[0]));
        let k = choose|k: int| 0 <= k < b.len() && b[k] == a[0];
        let m = choose|m: int| 0 <= m < a.len() && a[m] == b[0];
        assert(a[0] <= a[m]);
        assert(b[0] <= b[k]);
        let a1 = a.drop_first();
        let b1 = b.drop_first();
        assert forall|x: usize| a1.to_set().contains(x) <==> b1.to_set().contains(x) by {
            if a1.contains(x) {
                let i = choose|i: int| 0 <= i < a1.len() && a1[i] == x;
                assert(a[i + 1] == x);
                assert(b.to_set().contains(x));
                let j = choose|j: int| 0 <= j < b.len() && b[j] == x;
                assert(j != 0);
                assert(b1[j - 1] == x);
            }
            if b1.contains(x) {
                let i = choose|i: int| 0 <= i < b1.len() && b1[i] == x;
                assert(b[i + 1] == x);
                assert(a.to_set().contains(x));
                let j = choose|j: int| 0 <= j < a.len() && a[j] == x;
                assert(j != 0);
                assert(a1[j - 1] == x);
            }
        }
        assert(a1.to_set() =~= b1.to_set());
        lemma_ascending_unique(a1, b1);
        assert(a =~= seq![a[0]] + a1);
        assert(b =~= seq![b[0]] + b1);
    }
}

/// The ascending listing of `v`'s atoms.
fn canon_vec(v: &Vec<usize>) -> (c: Vec<usize>)
    ensures
        ascending(c@),
        c@.to_set() == v@.to_set(),
        c@ == listing(v@.to_set()),
{
    let mut c: Vec<usize> = Vec::new();
    let mut i: usize = 0;
    while i < v.len()
        invariant
            i <= v@.len(),
            ascending(c@),
            c@.to_set() == v@.take(i as int).to_set(),
        decreases v@.len() - i,
    {
        insert_ascending(&mut c, v[i]);
        proof {
            assert(v@.take(i + 1) =~= v@.take(i as int).push(v@[i as int]));
            crate::math::lemma_push_to_set(v@.take(i as int), v@[i as int]);
        }
        i = i + 1;
    }
    assert(v@.take(v@.len() as int) =~= v@);
    proof {
        let l = listing(v@.to_set());
        assert(ascending(c@) && c@.to_set() == v@.to_set());
        lemma_ascending_unique(l, c@);
    }
    c
}

fn same_ids(a: &Vec<usize>, b: &Vec<usize>) -> (r: bool)
    ensures
        r == (a@ == b@),
{
    if a.len() != b.len() {
        return false;
    }
    let mut i: usize = 0;
    while i < a.len()
        invariant
            i <= a@.len(),
            a@.len() == b@.len(),
            forall|k: int| 0 <= k < i ==> a@[k] == b@[k],
        decreases a@.len() - i,
    {
        if a[i] != b[i] {
            return false;
        }
        i = i + 1;
    }
    assert(a@ =~= b@);
    true
}

fn contains_id(v: &Vec<usize>, x: usize) -> (r: bool)
    ensures
        r == v@.contains(x),
{
    let mut i: usize = 0;
    while i < v.len()
        invariant
            i <= v@.len(),
            forall|k: int| 0 <= k < i ==> v@[k] != x,
        decreases v@.len() - i,
    {
        if v[i] == x {
            return true;
        }
        i = i + 1;
    }
    false
}

fn subset_ids(a: &Vec<usize>, b: &Vec<usize>) -> (r: bool)
    ensures
        r == a@.to_set().subset_of(b@.to_set()),
{
    let mut i: usize = 0;
    while i < a.len()
        invariant
            i <= a@.len(),
            forall|k: int| 0 <= k < i ==> b@.contains(#[trigger] a@[k]),
        decreases a@.len() - i,
    {
        if !contains_id(b, a[i]) {
            assert(a@.to_set().contains(a@[i as int]));
            return false;
        }
        i = i + 1;
    }
    assert forall|x: usize| a@.to_set().contains(x) implies b@.to_set().contains(x) by {
        let k = choose|k: int| 0 <= k < a@.len() && a@[k] == x;
    }
    true
}

/// Least model ignoring negation: an over-approximation of the true atoms.
fn possibly_true(g: &Ground, n: usize) -> (poss: Vec<bool>)
    requires
        n == g.atoms@.len(),
        ground_wf(*g),
    ensures
        poss@.len() == n,
        set_of(poss@) == poss_of(g.rules@),
{
    let none = filled(n, false);
    assert(set_of(none@) =~= Set::<usize>::empty());
    least_model(n, &g.rules, &none)
}

/// Deterministic consequences: a rule fires for certain when every positive
/// body atom is certain and every negative one is impossible.
fn certainly_true(g: &Ground, n: usize, poss: &Vec<bool>) -> (cert: Vec<bool>)
    requires
        n == g.atoms@.len(),
        ground_wf(*g),
        poss@.len() == n,
        set_of(poss@) == poss_of(g.rules@),
    ensures
        cert@.len() == n,
        set_of(cert@) == cert_of(g.rules@),
{
    least_model(n, &g.rules, poss)
}

/// The ids of `s` outside the marked set.
fn drop_marked(s: &Vec<usize>, m: &Vec<bool>) -> (r: Vec<usize>)
    requires
        forall|k: int| 0 <= k < s@.len() ==> s@[k] < m@.len(),
    ensures
        r@ == drop_in(s@, set_of(m@)),
{
    let mut r: Vec<usize> = Vec::new();
    let mut i: usize = 0;
    while i < s.len()
        invariant
            i <= s@.len(),
            forall|k: int| 0 <= k < s@.len() ==> s@[k] < m@.len(),
            r@ == drop_in(s@.take(i as int), set_of(m@)),
        decreases s@.len() - i,
    {
        if !m[s[i]] {
            r.push(s[i]);
        }
        proof {
            assert(s@.take(i + 1).drop_last() =~= s@.take(i as int));
            assert(s@.take(i + 1).last() == s@[i as int]);
        }
        i = i + 1;
    }
    assert(s@.take(s@.len() as int) =~= s@);
    r
}

/// The ids of `s` inside the marked set.
fn keep_marked(s: &Vec<usize>, m: &Vec<bool>) -> (r: Vec<usize>)
    requires
        forall|k: int| 0 <= k < s@.len() ==> s@[k] < m@.len(),
    ensures
        r@ == keep_in(s@, set_of(m@)),
{
    let mut r: Vec<usize> = Vec::new();
    let mut i: usize = 0;
    while i < s.len()
        invariant
            i <= s@.len(),
            forall|k: int| 0 <= k < s@.len() ==> s@[k] < m@.len(),
            r@ == keep_in(s@.take(i as int), set_of(m@)),
        decreases s@.len() - i,
    {
        if m[s[i]] {
            r.push(s[i]);
        }
        proof {
            assert(s@.take(i + 1).drop_last() =~= s@.take(i as int));
            assert(s@.take(i + 1).last() == s@[i as int]);
        }
        i = i + 1;
    }
    assert(s@.take(s@.len() as int) =~= s@);
    r
}


proof fn lemma_subsumes_trans(a: RuleView, b: RuleView, c: RuleView)
    requires
        subsumes(a, b),
        subsumes(b, c),
    ensures
        subsumes(a, c),
{
}

/// A subsumed rule has a subsumer that nothing subsumes.
proof fn lemma_min_subsumer(u: Seq<RuleView>, i: int, j: int) -> (m: int)
    requires
        0 <= i < u.len(),
        0 <= j < u.len(),
        subsumes(u[j], u[i]),
    ensures
        0 <= m < u.len(),
        subsumes(u[m], u[i]),
        forall|k: int| 0 <= k < u.len() ==> !#[trigger] subsumes(u[k], u[m]),
    decreases u[j].1.len() + u[j].2.len(),
{
    if exists|k: int| 0 <= k < u.len() && #[trigger] subsumes(u[k], u[j]) {
        let k = choose|k: int| 0 <= k < u.len() && #[trigger] subsumes(u[k], u[j]);
        lemma_subsumes_trans(u[k], u[j], u[i]);
        lemma_min_subsumer(u, i, k)
    } else {
        j
    }
}

fn same_head(a: Option<usize>, b: Option<usize>) -> (r: bool)
    ensures
        r == (a == b),
{
    match (a, b) {
        (Some(x), Some(y)) => x == y,
        (None, None) => true,
        _ => false,
    }
}

fn subsumes_exec(a: &GRule, b: &GRule) -> (r: bool)
    ensures
        r == subsumes(rv(*a), rv(*b)),
{
    same_head(a.head, b.head)
        && (a.pos.len() as u128) + (a.neg.len() as u128) < (b.pos.len() as u128) + (b.neg.len() as u128)
        && subset_ids(&a.pos, &b.pos)
        && subset_ids(&a.neg, &b.neg)
}

/// Keep the first rule of each key (canonical), then drop every rule that
/// another rule subsumes.
fn dedup_and_desubsume(rules: Vec<GRule>) -> (out: Vec<GRule>)
    ensures
        rvs(out@) == ({ let u = dedup(rvs(rules@)); desubsume(u, u.len() as int) }),
{
    reveal(same_key);
    let mut uniq: Vec<GRule> = Vec::new();
    let mut i: usize = 0;
    while i < rules.len()
        invariant
            i <= rules@.len(),
            rvs(uniq@) == dedup(rvs(rules@).take(i as int)),
            forall|k: int| 0 <= k < uniq@.len() ==> ascending((#[trigger] uniq@[k]).pos@) && ascending(uniq@[k].neg@),
        decreases rules@.len() - i,
    {
        let r = &rules[i];
        let cp = canon_vec(&r.pos);
        let cn = canon_vec(&r.neg);
        let mut found = false;
        let mut k: usize = 0;
        while k < uniq.len() && !found
            invariant
                k <= uniq@.len(),
                forall|q: int| 0 <= q < uniq@.len() ==> ascending((#[trigger] uniq@[q]).pos@) && ascending(uniq@[q].neg@),
                ascending(cp@),
                ascending(cn@),
                cp@.to_set() == r.pos@.to_set(),
                cn@.to_set() == r.neg@.to_set(),
                found ==> exists|q: int| 0 <= q < k && same_key(#[trigger] rvs(uniq@)[q], rv(*r)),
                !found ==> forall|q: int| 0 <= q < k ==> !same_key(#[trigger] rvs(uniq@)[q], rv(*r)),
            decreases uniq@.len() - k,
        {
            proof { reveal(same_key); }
            let u = &uniq[k];
            assert(rvs(uniq@)[k as int] == rv(*u));
            if same_head(u.head, r.head) && same_ids(&u.pos, &cp) && same_ids(&u.neg, &cn) {
                found = true;
            } else {
                proof {
                    if same_key(rv(*u), rv(*r)) {
                        lemma_ascending_unique(u.pos@, cp@);
                        lemma_ascending_unique(u.neg@, cn@);
                    }
                }
            }
            k = k + 1;
        }
        let ghost pre = rvs(rules@).take(i as int);
        let ghost post = rvs(rules@).take(i + 1);
        proof {
            assert(post.drop_last() =~= pre);
            assert(post.last() == rv(rules@[i as int]));
        }
        if !found {
            let ghost old_u = uniq@;
            uniq.push(GRule { head: r.head, pos: cp, neg: cn });
            proof {
                assert(rvs(uniq@) =~= rvs(old_u).push(canon(rv(rules@[i as int]))));
            }
        }
        i = i + 1;
    }
    assert(rvs(rules@).take(rules@.len() as int) =~= rvs(rules@));
    let ghost u = rvs(uniq@);
    let n = uniq.len();
    let mut keep = filled(n, true);
    let mut i: usize = 0;
    while i < n
        invariant
            i <= n,
            n == uniq@.len(),
            u == rvs(uniq@),
            keep@.len() == n,
            forall|q: int| 0 <= q < i ==> keep@[q] == !exists|j: int| 0 <= j < u.len() && #[trigger] subsumes(u[j], u[q]),
            forall|q: int| i <= q < n ==> keep@[q],
        decreases n - i,
    {
        let mut found = false;
        let mut j: usize = 0;
        while j < n && !found
            invariant
                j <= n,
                i < n,
                n == uniq@.len(),
                u == rvs(uniq@),
                keep@.len() == n,
                found ==> exists|j2: int| 0 <= j2 < u.len() && #[trigger] subsumes(u[j2], u[i as int]),
                !found ==> forall|j2: int| 0 <= j2 < j ==> !(j2 != i && keep@[j2] && #[trigger] subsumes(u[j2], u[i as int])),
            decreases n - j,
        {
            if j != i && keep[j] {
                assert(u[j as int] == rv(uniq@[j as int]) && u[i as int] == rv(uniq@[i as int]));
                if subsumes_exec(&uniq[j], &uniq[i]) {
                    found = true;
                }
            }
            j = j + 1;
        }
        proof {
            if !found && exists|j2: int| 0 <= j2 < u.len() && #[trigger] subsumes(u[j2], u[i as int]) {
                let j2 = choose|j2: int| 0 <= j2 < u.len() && #[trigger] subsumes(u[j2], u[i as int]);
                let m = lemma_min_subsumer(u, i as int, j2);
                assert(keep@[m]);
                assert(m != i);
                assert(!(m != i && keep@[m] && subsumes(u[m], u[i as int])));
            }
        }
        if found {
            keep.set(i, false);
        }
        i = i + 1;
    }
    let mut out: Vec<GRule> = Vec::new();
    let mut k: usize = 0;
    let mut uniq = uniq;
    let mut rest: Vec<GRule> = Vec::new();
    // move the kept rules out in order
    while uniq.len() > 0
        invariant
            uniq@.len() + rest@.len() == n,
            forall|q: int| 0 <= q < rest@.len() ==> rv(#[trigger] rest@[q]) == u[n - 1 - q],
            forall|q: int| 0 <= q < uniq@.len() ==> rv(#[trigger] uniq@[q]) == u[q],
        decreases uniq@.len(),
    {
        let r = uniq.pop().unwrap();
        rest.push(r);
    }
    while rest.len() > 0
        invariant
            k + rest@.len() == n,
            keep@.len() == n,
            forall|q: int| 0 <= q < rest@.len() ==> rv(#[trigger] rest@[q]) == u[n - 1 - q],
            forall|q: int| 0 <= q < n ==> keep@[q] == !exists|j: int| 0 <= j < u.len() && #[trigger] subsumes(u[j], u[q]),
            rvs(out@) == desubsume(u, k as int),
        decreases rest@.len(),
    {
        let r = rest.pop().unwrap();
        assert(rv(r) == u[k as int]);
        let ghost old_out = out@;
        if keep[k] {
            out.push(r);
            proof { assert(rvs(out@) =~= rvs(old_out).push(u[k as int])); }
        }
        k = k + 1;
    }
    out
}


/// A copy of the atom table.
fn copy_atoms(atoms: &Vec<GroundAtom>) -> (c: Vec<GroundAtom>)
    ensures
        mv(c@) == mv(atoms@),
{
    let mut c: Vec<GroundAtom> = Vec::new();
    let mut i: usize = 0;
    while i < atoms.len()
        invariant
            i <= atoms@.len(),
            mv(c@) == mv(atoms@.take(i as int)),
        decreases atoms@.len() - i,
    {
        let a = copy_atom(&atoms[i]);
        let ghost old_c = c@;
        c.push(a);
        proof {
            assert(mv(c@) =~= mv(old_c).push(av(atoms@[i as int])));
            assert(atoms@.take(i + 1) =~= atoms@.take(i as int).push(atoms@[i as int]));
            assert(mv(atoms@.take(i + 1)) =~= mv(atoms@.take(i as int)).push(av(atoms@[i as int])));
        }
        i = i + 1;
    }
    assert(atoms@.take(atoms@.len() as int) =~= atoms@);
    c
}

/// Simplify a grounded program, preserving its answer sets. The result shares
/// the atom table (ids are stable) and has fewer or shorter rules:
/// definitely-false rules dropped, certain facts substituted out, duplicate
/// and subsumed rules removed.
pub fn simplify(g: &Ground) -> (s: Ground)
    requires
        ground_wf(*g),
    ensures
        rvs(s.rules@) == simplified(g.rules@),
        mv(s.atoms@) == mv(g.atoms@),
{
    let n = g.n_atoms();
    let poss = possibly_true(g, n);
    let cert = certainly_true(g, n, &poss);
    let ghost p = set_of(poss@);
    let ghost c = set_of(cert@);
    let mut kept: Vec<GRule> = Vec::new();
    let mut i: usize = 0;
    while i < g.rules.len()
        invariant
            i <= g.rules@.len(),
            n == g.atoms@.len(),
            ground_wf(*g),
            poss@.len() == n,
            cert@.len() == n,
            p == set_of(poss@),
            c == set_of(cert@),
            rvs(kept@) == shrink(rvs(g.rules@).take(i as int), p, c),
        decreases g.rules@.len() - i,
    {
        let r = &g.rules[i];
        assert(*r == g.rules@[i as int]);
        let ghost rvw = rv(*r);
        let ok = crate::asp::all_marked(&r.pos, &poss) && crate::asp::none_marked(&r.neg, &cert);
        proof {
            assert(ok == live(rvw, p, c)) by {
                if ok {
                    assert forall|x: usize| r.pos@.to_set().contains(x) implies p.contains(x) by {
                        let k = choose|k: int| 0 <= k < r.pos@.len() && r.pos@[k] == x;
                    }
                    assert forall|x: usize| r.neg@.to_set().contains(x) implies !c.contains(x) by {
                        let k = choose|k: int| 0 <= k < r.neg@.len() && r.neg@[k] == x;
                    }
                }
                if live(rvw, p, c) {
                    assert forall|k: int| 0 <= k < r.pos@.len() implies p.contains(#[trigger] r.pos@[k]) by {
                        assert(r.pos@.to_set().contains(r.pos@[k]));
                    }
                    assert forall|k: int| 0 <= k < r.neg@.len() implies !c.contains(#[trigger] r.neg@[k]) by {
                        assert(r.neg@.to_set().contains(r.neg@[k]));
                    }
                }
            }
            assert(rvs(g.rules@).take(i + 1).drop_last() =~= rvs(g.rules@).take(i as int));
            assert(rvs(g.rules@).take(i + 1).last() == rvw);
        }
        if ok {
            let pos = drop_marked(&r.pos, &cert);
            let neg = keep_marked(&r.neg, &poss);
            let ghost old_k = kept@;
            kept.push(GRule { head: r.head, pos, neg });
            proof { assert(rvs(kept@) =~= rvs(old_k).push(substitute(rvw, p, c))); }
        }
        i = i + 1;
    }
    assert(rvs(g.rules@).take(g.rules@.len() as int) =~= rvs(g.rules@));
    let rules = dedup_and_desubsume(kept);
    Ground { rules, atoms: copy_atoms(&g.atoms) }
}

/// Total body length of the rules.
pub open spec fn literals(rules: Seq<GRule>) -> nat
    decreases rules.len(),
{
    if rules.len() == 0 { 0 } else { literals(rules.drop_last()) + rules.last().pos@.len() + rules.last().neg@.len() }
}

proof fn lemma_literals_prefix(rules: Seq<GRule>, i: int)
    requires
        0 <= i <= rules.len(),
    ensures
        literals(rules.take(i)) <= literals(rules),
    decreases rules.len() - i,
{
    if i < rules.len() {
        lemma_literals_prefix(rules, i + 1);
        assert(rules.take(i + 1).drop_last() =~= rules.take(i));
    } else {
        assert(rules.take(i) =~= rules);
    }
}

fn literal_count(g: &Ground) -> (t: usize)
    requires
        literals(g.rules@) <= usize::MAX,
    ensures
        t == literals(g.rules@),
{
    let mut t: usize = 0;
    let mut i: usize = 0;
    while i < g.rules.len()
        invariant
            i <= g.rules@.len(),
            literals(g.rules@) <= usize::MAX,
            t == literals(g.rules@.take(i as int)),
        decreases g.rules@.len() - i,
    {
        proof {
            assert(g.rules@.take(i + 1).drop_last() =~= g.rules@.take(i as int));
            lemma_literals_prefix(g.rules@, i + 1);
        }
        t = t + g.rules[i].pos.len() + g.rules[i].neg.len();
        i = i + 1;
    }
    assert(g.rules@.take(g.rules@.len() as int) =~= g.rules@);
    t
}

/// A cheap reduction summary: `(rules_before, rules_after, literals_before,
/// literals_after)`.
pub fn reduction(before: &Ground, after: &Ground) -> (r: (usize, usize, usize, usize))
    requires
        literals(before.rules@) <= usize::MAX,
        literals(after.rules@) <= usize::MAX,
    ensures
        r == (before.rules@.len() as usize, after.rules@.len() as usize,
            literals(before.rules@) as usize, literals(after.rules@) as usize),
{
    (before.rules.len(), after.rules.len(), literal_count(before), literal_count(after))
}

/// The atoms proven certainly true by simplification, in id order.
pub fn certain_facts(g: &Ground) -> (facts: Vec<GroundAtom>)
    requires
        ground_wf(*g),
    ensures
        mv(facts@) == listing(cert_of(g.rules@)).map_values(|id: usize| av(g.atoms@[id as int])),
{
    let n = g.n_atoms();
    let poss = possibly_true(g, n);
    let cert = certainly_true(g, n, &poss);
    let ids = ids_of(&cert);
    proof {
        let l = listing(cert_of(g.rules@));
        lemma_ascending_unique(l, ids@);
    }
    let mut out: Vec<GroundAtom> = Vec::new();
    let mut i: usize = 0;
    while i < ids.len()
        invariant
            i <= ids@.len(),
            forall|k: int| 0 <= k < ids@.len() ==> ids@[k] < g.atoms@.len(),
            mv(out@) == ids@.take(i as int).map_values(|id: usize| av(g.atoms@[id as int])),
        decreases ids@.len() - i,
    {
        let a = copy_atom(&g.atoms[ids[i]]);
        let ghost old_out = out@;
        let ghost ga = av(a);
        out.push(a);
        proof {
            let f = |id: usize| av(g.atoms@[id as int]);
            assert(mv(out@) =~= mv(old_out).push(ga));
            assert(ids@.take(i + 1) =~= ids@.take(i as int).push(ids@[i as int]));
            assert(ids@.take(i + 1).map_values(f) =~= ids@.take(i as int).map_values(f).push(f(ids@[i as int])));
        }
        i = i + 1;
    }
    assert(ids@.take(ids@.len() as int) =~= ids@);
    out
}


// ---- answer-set preservation ------------------------------------------------

/// `r` survives the reduct with respect to `s`.
pub open spec fn active_v(r: RuleView, s: Set<usize>) -> bool {
    r.0 is Some && r.2.to_set().disjoint(s)
}

/// The body of `r` holds under `s`.
pub open spec fn body_holds_v(r: RuleView, s: Set<usize>) -> bool {
    r.1.to_set().subset_of(s) && r.2.to_set().disjoint(s)
}

pub open spec fn closed_v(rules: Seq<RuleView>, s: Set<usize>, m: Set<usize>) -> bool {
    forall|i: int| 0 <= i < rules.len() && active_v(#[trigger] rules[i], s) && rules[i].1.to_set().subset_of(m)
        ==> m.contains(rules[i].0->0)
}

pub open spec fn lm_v(rules: Seq<RuleView>, s: Set<usize>) -> Set<usize> {
    Set::new(|a: usize| forall|m: Set<usize>| #[trigger] closed_v(rules, s, m) ==> m.contains(a))
}

pub open spec fn constraints_v(rules: Seq<RuleView>, s: Set<usize>) -> bool {
    forall|i: int| 0 <= i < rules.len() && (#[trigger] rules[i]).0 is None ==> !body_holds_v(rules[i], s)
}

/// `s` is a stable model of the rules `rules` (given by what they say).
pub open spec fn stable_v(rules: Seq<RuleView>, s: Set<usize>) -> bool {
    s == lm_v(rules, s) && constraints_v(rules, s)
}

proof fn lemma_bridge(rules: Seq<GRule>)
    ensures
        forall|s: Set<usize>, m: Set<usize>| #[trigger] closed(rules, s, m) == closed_v(rvs(rules), s, m),
        forall|s: Set<usize>| #[trigger] lm(rules, s) == lm_v(rvs(rules), s),
        forall|s: Set<usize>| #[trigger] stable(rules, s) == stable_v(rvs(rules), s),
{
    let v = rvs(rules);
    assert forall|i: int, s: Set<usize>| 0 <= i < rules.len() implies
        (#[trigger] neg_out(rules[i], s) == v[i].2.to_set().disjoint(s)) && pos_in(rules[i], s) == v[i].1.to_set().subset_of(s) by {
        assert(v[i] == rv(rules[i]));
        if neg_out(rules[i], s) {
            assert forall|x: usize| v[i].2.to_set().contains(x) implies !s.contains(x) by {
                let k = choose|k: int| 0 <= k < rules[i].neg@.len() && rules[i].neg@[k] == x;
            }
        }
        if v[i].2.to_set().disjoint(s) {
            assert forall|k: int| 0 <= k < rules[i].neg@.len() implies !s.contains(#[trigger] rules[i].neg@[k]) by {
                assert(v[i].2.to_set().contains(rules[i].neg@[k]));
            }
        }
        if pos_in(rules[i], s) {
            assert forall|x: usize| v[i].1.to_set().contains(x) implies s.contains(x) by {
                let k = choose|k: int| 0 <= k < rules[i].pos@.len() && rules[i].pos@[k] == x;
            }
        }
        if v[i].1.to_set().subset_of(s) {
            assert forall|k: int| 0 <= k < rules[i].pos@.len() implies s.contains(#[trigger] rules[i].pos@[k]) by {
                assert(v[i].1.to_set().contains(rules[i].pos@[k]));
            }
        }
    }
    assert forall|s: Set<usize>, m: Set<usize>| #[trigger] closed(rules, s, m) == closed_v(v, s, m) by {
        if closed(rules, s, m) {
            assert forall|i: int| 0 <= i < v.len() && active_v(#[trigger] v[i], s) && v[i].1.to_set().subset_of(m) implies m.contains(v[i].0->0) by {
                assert(neg_out(rules[i], s) == v[i].2.to_set().disjoint(s));
                assert(pos_in(rules[i], m) == v[i].1.to_set().subset_of(m));
                assert(active(rules[i], s));
            }
        }
        if closed_v(v, s, m) {
            assert forall|i: int| 0 <= i < rules.len() && active(#[trigger] rules[i], s) && pos_in(rules[i], m) implies m.contains(rules[i].head->0) by {
                assert(neg_out(rules[i], s) == v[i].2.to_set().disjoint(s));
                assert(pos_in(rules[i], m) == v[i].1.to_set().subset_of(m));
                assert(active_v(v[i], s));
            }
        }
    }
    assert forall|s: Set<usize>| #[trigger] lm(rules, s) == lm_v(v, s) by {
        assert forall|a: usize| lm(rules, s).contains(a) == lm_v(v, s).contains(a) by {
            if lm(rules, s).contains(a) {
                assert forall|m: Set<usize>| #[trigger] closed_v(v, s, m) implies m.contains(a) by {
                    assert(closed(rules, s, m) == closed_v(v, s, m));
                }
            }
            if lm_v(v, s).contains(a) {
                assert forall|m: Set<usize>| #[trigger] closed(rules, s, m) implies m.contains(a) by {
                    assert(closed(rules, s, m) == closed_v(v, s, m));
                }
            }
        }
        assert(lm(rules, s) =~= lm_v(v, s));
    }
    assert forall|s: Set<usize>| #[trigger] stable(rules, s) == stable_v(v, s) by {
        if constraints_hold(rules, s) {
            assert forall|i: int| 0 <= i < v.len() && (#[trigger] v[i]).0 is None implies !body_holds_v(v[i], s) by {
                assert(neg_out(rules[i], s) == v[i].2.to_set().disjoint(s));
                assert(pos_in(rules[i], s) == v[i].1.to_set().subset_of(s));
            }
        }
        if constraints_v(v, s) {
            assert forall|i: int| 0 <= i < rules.len() && (#[trigger] rules[i]).head is None implies !(pos_in(rules[i], s) && neg_out(rules[i], s)) by {
                assert(neg_out(rules[i], s) == v[i].2.to_set().disjoint(s));
                assert(pos_in(rules[i], s) == v[i].1.to_set().subset_of(s));
            }
        }
    }
}

/// Rules with the same head and body sets say the same thing.
pub open spec fn covers(a: Seq<RuleView>, b: Seq<RuleView>) -> bool {
    forall|i: int| 0 <= i < a.len() ==> #[trigger] has_key(b, a[i])
}

/// Some rule of `b` has the key of `x`.
pub open spec fn has_key(b: Seq<RuleView>, x: RuleView) -> bool {
    exists|j: int| 0 <= j < b.len() && #[trigger] same_key(x, b[j])
}

/// Rule lists that cover each other have the same closed sets and constraints.
proof fn lemma_covers_equiv(a: Seq<RuleView>, b: Seq<RuleView>)
    requires
        covers(a, b),
        covers(b, a),
    ensures
        forall|s: Set<usize>, m: Set<usize>| #[trigger] closed_v(a, s, m) == closed_v(b, s, m),
        forall|s: Set<usize>| #[trigger] constraints_v(a, s) == constraints_v(b, s),
        forall|s: Set<usize>| #[trigger] lm_v(a, s) == lm_v(b, s),
{
    reveal(same_key);
    assert forall|s: Set<usize>, m: Set<usize>| #[trigger] closed_v(a, s, m) == closed_v(b, s, m) by {
        if closed_v(a, s, m) {
            assert forall|i: int| 0 <= i < b.len() && active_v(#[trigger] b[i], s) && b[i].1.to_set().subset_of(m) implies m.contains(b[i].0->0) by {
                assert(has_key(a, b[i]));
                let j = choose|j: int| 0 <= j < a.len() && #[trigger] same_key(b[i], a[j]);
                assert(active_v(a[j], s));
            }
        }
        if closed_v(b, s, m) {
            assert forall|i: int| 0 <= i < a.len() && active_v(#[trigger] a[i], s) && a[i].1.to_set().subset_of(m) implies m.contains(a[i].0->0) by {
                assert(has_key(b, a[i]));
                let j = choose|j: int| 0 <= j < b.len() && #[trigger] same_key(a[i], b[j]);
                assert(active_v(b[j], s));
            }
        }
    }
    assert forall|s: Set<usize>| #[trigger] constraints_v(a, s) == constraints_v(b, s) by {
        if constraints_v(a, s) {
            assert forall|i: int| 0 <= i < b.len() && (#[trigger] b[i]).0 is None implies !body_holds_v(b[i], s) by {
                assert(has_key(a, b[i]));
                let j = choose|j: int| 0 <= j < a.len() && #[trigger] same_key(b[i], a[j]);
            }
        }
        if constraints_v(b, s) {
            assert forall|i: int| 0 <= i < a.len() && (#[trigger] a[i]).0 is None implies !body_holds_v(a[i], s) by {
                assert(has_key(b, a[i]));
                let j = choose|j: int| 0 <= j < b.len() && #[trigger] same_key(a[i], b[j]);
            }
        }
    }
    assert forall|s: Set<usize>| #[trigger] lm_v(a, s) == lm_v(b, s) by {
        assert forall|x: usize| lm_v(a, s).contains(x) == lm_v(b, s).contains(x) by {
            if lm_v(a, s).contains(x) {
                assert forall|m: Set<usize>| #[trigger] closed_v(b, s, m) implies m.contains(x) by {
                    assert(closed_v(a, s, m) == closed_v(b, s, m));
                }
            }
            if lm_v(b, s).contains(x) {
                assert forall|m: Set<usize>| #[trigger] closed_v(a, s, m) implies m.contains(x) by {
                    assert(closed_v(a, s, m) == closed_v(b, s, m));
                }
            }
        }
        assert(lm_v(a, s) =~= lm_v(b, s));
    }
}

proof fn lemma_listing(s: Set<usize>, l: Seq<usize>)
    requires
        ascending(l),
        l.to_set() == s,
    ensures
        listing(s) == l,
{
    let c = listing(s);
    lemma_ascending_unique(c, l);
}

proof fn lemma_canon_same_key(x: RuleView)
    ensures
        same_key(canon(x), x),
{
    reveal(same_key);
    let lp = canon_witness(x.1);
    let ln = canon_witness(x.2);
    lemma_listing(x.1.to_set(), lp);
    lemma_listing(x.2.to_set(), ln);
}

proof fn lemma_same_key_symm(a: RuleView, b: RuleView)
    requires
        same_key(a, b),
    ensures
        same_key(b, a),
{
    reveal(same_key);
}

/// Every rule has a rule of its key after deduplication.
proof fn lemma_dedup_fwd(rules: Seq<RuleView>)
    ensures
        covers(rules, dedup(rules)),
    decreases rules.len(),
{
    if rules.len() > 0 {
        let pre = rules.drop_last();
        let d0 = dedup(pre);
        lemma_dedup_fwd(pre);
        let x = rules.last();
        let d = dedup(rules);
        let found = exists|k: int| 0 <= k < d0.len() && same_key(#[trigger] d0[k], x);
        assert(found ==> d == d0);
        assert(!found ==> d == d0.push(canon(x)));
        assert forall|i: int| 0 <= i < rules.len() implies #[trigger] has_key(d, rules[i]) by {
            if i < pre.len() {
                assert(rules[i] == pre[i]);
                assert(has_key(d0, pre[i]));
                let j = choose|j: int| 0 <= j < d0.len() && #[trigger] same_key(pre[i], d0[j]);
                assert(d[j] == d0[j]);
            } else if found {
                let k = choose|k: int| 0 <= k < d0.len() && same_key(#[trigger] d0[k], x);
                lemma_same_key_symm(d0[k], x);
                assert(d[k] == d0[k]);
            } else {
                lemma_canon_same_key(x);
                lemma_same_key_symm(canon(x), x);
                assert(d[d0.len() as int] == canon(x));
            }
        }
        assert(covers(rules, d));
    }
}

/// Every rule left by deduplication stands for a rule of the input.
proof fn lemma_dedup_back(rules: Seq<RuleView>)
    ensures
        covers(dedup(rules), rules),
    decreases rules.len(),
{
    if rules.len() > 0 {
        let pre = rules.drop_last();
        let d0 = dedup(pre);
        lemma_dedup_back(pre);
        let x = rules.last();
        let d = dedup(rules);
        let found = exists|k: int| 0 <= k < d0.len() && same_key(#[trigger] d0[k], x);
        assert(found ==> d == d0);
        assert(!found ==> d == d0.push(canon(x)));
        assert forall|j: int| 0 <= j < d.len() implies #[trigger] has_key(rules, d[j]) by {
            if j < d0.len() {
                assert(d[j] == d0[j]);
                assert(has_key(pre, d0[j]));
                let i = choose|i: int| 0 <= i < pre.len() && #[trigger] same_key(d0[j], pre[i]);
                assert(rules[i] == pre[i]);
            } else {
                lemma_canon_same_key(x);
                assert(!found);
                assert(d[j] == canon(x));
                assert(rules[rules.len() - 1] == x);
                assert(same_key(d[j], rules[rules.len() - 1]));
            }
        }
        assert(covers(d, rules));
    } else {
        assert(dedup(rules) =~= Seq::<RuleView>::empty());
    }
}

/// Some ascending listing of the elements of `s`.
proof fn canon_witness(s: Seq<usize>) -> (l: Seq<usize>)
    ensures
        ascending(l),
        l.to_set() == s.to_set(),
    decreases s.len(),
{
    if s.len() == 0 {
        Seq::empty()
    } else {
        let p = canon_witness(s.drop_last());
        let x = s.last();
        assert(s =~= s.drop_last().push(x));
        crate::math::lemma_push_to_set(s.drop_last(), x);
        if p.contains(x) {
            assert(p.to_set() =~= p.to_set().insert(x));
            p
        } else {
            let k = choose_pos(p, x);
            let q = p.subrange(0, k).push(x) + p.subrange(k, p.len() as int);
            assert forall|a: int, b: int| 0 <= a < b < q.len() implies q[a] < q[b] by {
                if a < k && b > k { assert(q[b] == p[b - 1]); }
                if a > k { assert(q[a] == p[a - 1]); assert(q[b] == p[b - 1]); }
                if a == k && b > k { assert(q[b] == p[b - 1]); assert(p[k] != x); }
                if a < k && b < k {}
                if a < k && b == k {}
            }
            assert forall|y: usize| q.to_set().contains(y) <==> p.to_set().insert(x).contains(y) by {
                if q.contains(y) {
                    let i = choose|i: int| 0 <= i < q.len() && q[i] == y;
                    if i < k { assert(p[i] == y); } else if i > k { assert(p[i - 1] == y); }
                }
                if p.contains(y) {
                    let i = choose|i: int| 0 <= i < p.len() && p[i] == y;
                    if i < k { assert(q[i] == y); } else { assert(q[i + 1] == y); }
                }
                if y == x { assert(q[k] == x); }
            }
            assert(q.to_set() =~= p.to_set().insert(x));
            q
        }
    }
}

/// The place of `x` in an ascending sequence: after every smaller element.
proof fn choose_pos(p: Seq<usize>, x: usize) -> (k: int)
    requires
        ascending(p),
    ensures
        0 <= k <= p.len(),
        forall|i: int| 0 <= i < k ==> p[i] < x,
        forall|i: int| k <= i < p.len() ==> p[i] >= x,
    decreases p.len(),
{
    if p.len() == 0 {
        0
    } else if p.last() < x {
        p.len() as int
    } else {
        let k = choose_pos(p.drop_last(), x);
        assert forall|i: int| 0 <= i < k implies p[i] < x by {
            assert(p.drop_last()[i] == p[i]);
        }
        assert forall|i: int| k <= i < p.len() implies p[i] >= x by {
            if i < p.len() - 1 { assert(p.drop_last()[i] == p[i]); }
        }
        k
    }
}


/// `x` is one of `u[..k]`.
pub open spec fn among(u: Seq<RuleView>, k: int, x: RuleView) -> bool {
    exists|q: int| 0 <= q < k && #[trigger] u[q] == x
}

/// Some rule of `u` subsumes `u[q]`.
pub open spec fn subsumed(u: Seq<RuleView>, q: int) -> bool {
    exists|j: int| 0 <= j < u.len() && #[trigger] subsumes(u[j], u[q])
}

proof fn lemma_desubsume_members(u: Seq<RuleView>, k: int)
    requires
        0 <= k <= u.len(),
    ensures
        forall|q: int| 0 <= q < k && !subsumed(u, q) ==> #[trigger] desubsume(u, k).contains(u[q]),
        forall|t: int| 0 <= t < desubsume(u, k).len() ==> #[trigger] among(u, k, desubsume(u, k)[t]),
    decreases k,
{
    if k > 0 {
        lemma_desubsume_members(u, k - 1);
        let prev = desubsume(u, k - 1);
        let d = desubsume(u, k);
        assert forall|q: int| 0 <= q < k && !subsumed(u, q) implies #[trigger] d.contains(u[q]) by {
            if q < k - 1 {
                assert(prev.contains(u[q]));
                let t = choose|t: int| 0 <= t < prev.len() && prev[t] == u[q];
                assert(d[t] == prev[t]);
            } else {
                assert(d[prev.len() as int] == u[q]);
            }
        }
        assert forall|t: int| 0 <= t < d.len() implies #[trigger] among(u, k, d[t]) by {
            if t < prev.len() {
                assert(d[t] == prev[t]);
                assert(among(u, k - 1, prev[t]));
                let q = choose|q: int| 0 <= q < k - 1 && #[trigger] u[q] == prev[t];
            } else {
                assert(u[k - 1] == d[t]);
            }
        }
    }
}

/// Dropping subsumed rules changes no closed set and no constraint.
proof fn lemma_desubsume_equiv(u: Seq<RuleView>)
    ensures
        forall|s: Set<usize>, m: Set<usize>| #[trigger] closed_v(u, s, m) == closed_v(desubsume(u, u.len() as int), s, m),
        forall|s: Set<usize>| #[trigger] constraints_v(u, s) == constraints_v(desubsume(u, u.len() as int), s),
{
    let d = desubsume(u, u.len() as int);
    lemma_desubsume_members(u, u.len() as int);
    assert forall|s: Set<usize>, m: Set<usize>| #[trigger] closed_v(u, s, m) == closed_v(d, s, m) by {
        if closed_v(u, s, m) {
            assert forall|t: int| 0 <= t < d.len() && active_v(#[trigger] d[t], s) && d[t].1.to_set().subset_of(m) implies m.contains(d[t].0->0) by {
                assert(among(u, u.len() as int, d[t]));
                let q = choose|q: int| 0 <= q < u.len() && #[trigger] u[q] == d[t];
                assert(active_v(u[q], s));
            }
        }
        if closed_v(d, s, m) {
            assert forall|i: int| 0 <= i < u.len() && active_v(#[trigger] u[i], s) && u[i].1.to_set().subset_of(m) implies m.contains(u[i].0->0) by {
                if subsumed(u, i) {
                    let j = choose|j: int| 0 <= j < u.len() && #[trigger] subsumes(u[j], u[i]);
                    let mm = lemma_min_subsumer(u, i, j);
                    assert(!subsumed(u, mm));
                    assert(d.contains(u[mm]));
                    let t = choose|t: int| 0 <= t < d.len() && d[t] == u[mm];
                    assert(active_v(d[t], s));
                } else {
                    assert(d.contains(u[i]));
                    let t = choose|t: int| 0 <= t < d.len() && d[t] == u[i];
                    assert(active_v(d[t], s));
                }
            }
        }
    }
    assert forall|s: Set<usize>| #[trigger] constraints_v(u, s) == constraints_v(d, s) by {
        if constraints_v(u, s) {
            assert forall|t: int| 0 <= t < d.len() && (#[trigger] d[t]).0 is None implies !body_holds_v(d[t], s) by {
                assert(among(u, u.len() as int, d[t]));
                let q = choose|q: int| 0 <= q < u.len() && #[trigger] u[q] == d[t];
            }
        }
        if constraints_v(d, s) {
            assert forall|i: int| 0 <= i < u.len() && (#[trigger] u[i]).0 is None implies !body_holds_v(u[i], s) by {
                if subsumed(u, i) {
                    let j = choose|j: int| 0 <= j < u.len() && #[trigger] subsumes(u[j], u[i]);
                    let mm = lemma_min_subsumer(u, i, j);
                    assert(!subsumed(u, mm));
                    assert(d.contains(u[mm]));
                    let t = choose|t: int| 0 <= t < d.len() && d[t] == u[mm];
                    assert(!body_holds_v(d[t], s));
                } else {
                    assert(d.contains(u[i]));
                    let t = choose|t: int| 0 <= t < d.len() && d[t] == u[i];
                    assert(!body_holds_v(d[t], s));
                }
            }
        }
    }
}

proof fn lemma_lm_v_from_closed(a: Seq<RuleView>, b: Seq<RuleView>)
    requires
        forall|s: Set<usize>, m: Set<usize>| #[trigger] closed_v(a, s, m) == closed_v(b, s, m),
    ensures
        forall|s: Set<usize>| #[trigger] lm_v(a, s) == lm_v(b, s),
{
    assert forall|s: Set<usize>| #[trigger] lm_v(a, s) == lm_v(b, s) by {
        assert forall|x: usize| lm_v(a, s).contains(x) == lm_v(b, s).contains(x) by {
            if lm_v(a, s).contains(x) {
                assert forall|m: Set<usize>| #[trigger] closed_v(b, s, m) implies m.contains(x) by {
                    assert(closed_v(a, s, m) == closed_v(b, s, m));
                }
            }
            if lm_v(b, s).contains(x) {
                assert forall|m: Set<usize>| #[trigger] closed_v(a, s, m) implies m.contains(x) by {
                    assert(closed_v(a, s, m) == closed_v(b, s, m));
                }
            }
        }
        assert(lm_v(a, s) =~= lm_v(b, s));
    }
}

/// The least model is closed.
proof fn lemma_lm_v_closed(rules: Seq<RuleView>, s: Set<usize>)
    ensures
        closed_v(rules, s, lm_v(rules, s)),
{
    let l = lm_v(rules, s);
    assert forall|i: int| 0 <= i < rules.len() && active_v(#[trigger] rules[i], s) && rules[i].1.to_set().subset_of(l)
        implies l.contains(rules[i].0->0) by {
        assert forall|m: Set<usize>| #[trigger] closed_v(rules, s, m) implies m.contains(rules[i].0->0) by {
            assert(rules[i].1.to_set().subset_of(m));
        }
    }
}

/// More atoms blocked by negation leave a smaller least model.
proof fn lemma_lm_v_antitone(rules: Seq<RuleView>, s1: Set<usize>, s2: Set<usize>)
    requires
        s1.subset_of(s2),
    ensures
        lm_v(rules, s2).subset_of(lm_v(rules, s1)),
{
    assert forall|x: usize| lm_v(rules, s2).contains(x) implies lm_v(rules, s1).contains(x) by {
        assert forall|m: Set<usize>| #[trigger] closed_v(rules, s1, m) implies m.contains(x) by {
            assert(closed_v(rules, s2, m));
        }
    }
}

proof fn lemma_drop_keep_sets(s: Seq<usize>, c: Set<usize>)
    ensures
        drop_in(s, c).to_set() == s.to_set().difference(c),
        keep_in(s, c).to_set() == s.to_set().intersect(c),
        drop_in(s, c).len() <= s.len(),
        keep_in(s, c).len() <= s.len(),
    decreases s.len(),
{
    if s.len() > 0 {
        lemma_drop_keep_sets(s.drop_last(), c);
        assert(s =~= s.drop_last().push(s.last()));
        crate::math::lemma_push_to_set(s.drop_last(), s.last());
        crate::math::lemma_push_to_set(drop_in(s.drop_last(), c), s.last());
        crate::math::lemma_push_to_set(keep_in(s.drop_last(), c), s.last());
        assert(drop_in(s, c).to_set() =~= s.to_set().difference(c));
        assert(keep_in(s, c).to_set() =~= s.to_set().intersect(c));
    } else {
        assert(drop_in(s, c).to_set() =~= s.to_set().difference(c));
        assert(keep_in(s, c).to_set() =~= s.to_set().intersect(c));
    }
}

/// `x` is the substitution of a live rule of `rules`.
pub open spec fn from_live(rules: Seq<RuleView>, p: Set<usize>, c: Set<usize>, x: RuleView) -> bool {
    exists|i: int| 0 <= i < rules.len() && live(rules[i], p, c) && #[trigger] substitute(rules[i], p, c) == x
}

proof fn lemma_shrink_members(rules: Seq<RuleView>, p: Set<usize>, c: Set<usize>)
    ensures
        forall|i: int| 0 <= i < rules.len() && live(rules[i], p, c) ==> #[trigger] shrink(rules, p, c).contains(substitute(rules[i], p, c)),
        forall|t: int| 0 <= t < shrink(rules, p, c).len() ==> #[trigger] from_live(rules, p, c, shrink(rules, p, c)[t]),
    decreases rules.len(),
{
    if rules.len() > 0 {
        let pre = rules.drop_last();
        lemma_shrink_members(pre, p, c);
        let r0 = shrink(pre, p, c);
        let r1 = shrink(rules, p, c);
        assert forall|i: int| 0 <= i < rules.len() && live(rules[i], p, c) implies #[trigger] r1.contains(substitute(rules[i], p, c)) by {
            if i < pre.len() {
                assert(rules[i] == pre[i]);
                assert(r0.contains(substitute(pre[i], p, c)));
                let t = choose|t: int| 0 <= t < r0.len() && r0[t] == substitute(pre[i], p, c);
                assert(r1[t] == r0[t]);
            } else {
                assert(r1[r0.len() as int] == substitute(rules[i], p, c));
            }
        }
        assert forall|t: int| 0 <= t < r1.len() implies #[trigger] from_live(rules, p, c, r1[t]) by {
            if t < r0.len() {
                assert(r1[t] == r0[t]);
                assert(from_live(pre, p, c, r0[t]));
                let i = choose|i: int| 0 <= i < pre.len() && live(pre[i], p, c) && #[trigger] substitute(pre[i], p, c) == r0[t];
                assert(rules[i] == pre[i]);
            } else {
                assert(substitute(rules[rules.len() - 1], p, c) == r1[t]);
            }
        }
    }
}

/// Dropping dead rules and substituting facts keeps the answer sets.
proof fn lemma_shrink_preserves(rules: Seq<RuleView>, m: Set<usize>)
    ensures
        ({
            let p = lm_v(rules, Set::empty());
            let c = lm_v(rules, p);
            stable_v(shrink(rules, p, c), m) == stable_v(rules, m)
        }),
{
    let e = Set::<usize>::empty();
    let p = lm_v(rules, e);
    let c = lm_v(rules, p);
    let r1 = shrink(rules, p, c);
    lemma_shrink_members(rules, p, c);
    lemma_lm_v_closed(rules, e);
    lemma_lm_v_closed(rules, p);
    lemma_lm_v_antitone(rules, e, p);
    assert forall|i: int| 0 <= i < rules.len() implies
        #[trigger] substitute(rules[i], p, c).1.to_set() == rules[i].1.to_set().difference(c)
        && substitute(rules[i], p, c).2.to_set() == rules[i].2.to_set().intersect(p) by {
        lemma_drop_keep_sets(rules[i].1, c);
        lemma_drop_keep_sets(rules[i].2, p);
    }
    // every least model of the shrunk rules lies within `p` and contains `c`
    assert forall|s: Set<usize>| #![trigger lm_v(r1, s)] lm_v(r1, s).subset_of(p) && c.subset_of(lm_v(r1, s)) by {
        assert(closed_v(r1, s, p)) by {
            assert forall|t: int| 0 <= t < r1.len() && active_v(#[trigger] r1[t], s) && r1[t].1.to_set().subset_of(p) implies p.contains(r1[t].0->0) by {
                assert(from_live(rules, p, c, r1[t]));
                let i = choose|i: int| 0 <= i < rules.len() && live(rules[i], p, c) && #[trigger] substitute(rules[i], p, c) == r1[t];
                lemma_drop_keep_sets(rules[i].1, c);
                lemma_drop_keep_sets(rules[i].2, p);
                assert(substitute(rules[i], p, c).1.to_set() == rules[i].1.to_set().difference(c));
                assert(active_v(rules[i], e));
            }
        }
        let m1 = lm_v(r1, s);
        lemma_lm_v_closed(r1, s);
        assert(closed_v(rules, p, m1)) by {
            assert forall|i: int| 0 <= i < rules.len() && active_v(#[trigger] rules[i], p) && rules[i].1.to_set().subset_of(m1) implies m1.contains(rules[i].0->0) by {
                assert(live(rules[i], p, c));
                assert(r1.contains(substitute(rules[i], p, c)));
                let t = choose|t: int| 0 <= t < r1.len() && r1[t] == substitute(rules[i], p, c);
                lemma_drop_keep_sets(rules[i].2, p);
                assert(substitute(rules[i], p, c).2.to_set() == rules[i].2.to_set().intersect(p));
                assert(substitute(rules[i], p, c).2.to_set() =~= Set::<usize>::empty());
                assert(active_v(r1[t], s));
            }
        }
    }
    // between `c` and `p` the two programs agree
    assert forall|s: Set<usize>| c.subset_of(s) && s.subset_of(p) implies
        #[trigger] lm_v(r1, s) == lm_v(rules, s) && constraints_v(r1, s) == constraints_v(rules, s) by {
        let l = lm_v(rules, s);
        let l1 = lm_v(r1, s);
        lemma_lm_v_closed(rules, s);
        lemma_lm_v_closed(r1, s);
        lemma_lm_v_antitone(rules, s, p);
        assert(closed_v(r1, s, l)) by {
            assert forall|t: int| 0 <= t < r1.len() && active_v(#[trigger] r1[t], s) && r1[t].1.to_set().subset_of(l) implies l.contains(r1[t].0->0) by {
                assert(from_live(rules, p, c, r1[t]));
                let i = choose|i: int| 0 <= i < rules.len() && live(rules[i], p, c) && #[trigger] substitute(rules[i], p, c) == r1[t];
                lemma_drop_keep_sets(rules[i].1, c);
                lemma_drop_keep_sets(rules[i].2, p);
                assert(substitute(rules[i], p, c).1.to_set() == rules[i].1.to_set().difference(c));
                assert(active_v(rules[i], s));
            }
        }
        assert(l1.subset_of(p) && c.subset_of(l1));
        assert(closed_v(rules, s, l1)) by {
            assert forall|i: int| 0 <= i < rules.len() && active_v(#[trigger] rules[i], s) && rules[i].1.to_set().subset_of(l1) implies l1.contains(rules[i].0->0) by {
                assert(rules[i].1.to_set().subset_of(p));
                assert(rules[i].2.to_set().disjoint(c));
                assert(live(rules[i], p, c));
                assert(r1.contains(substitute(rules[i], p, c)));
                let t = choose|t: int| 0 <= t < r1.len() && r1[t] == substitute(rules[i], p, c);
                assert(substitute(rules[i], p, c).1.to_set() == rules[i].1.to_set().difference(c));
                assert(active_v(r1[t], s));
            }
        }
        assert(l1 =~= l);
        if constraints_v(rules, s) {
            assert forall|t: int| 0 <= t < r1.len() && (#[trigger] r1[t]).0 is None implies !body_holds_v(r1[t], s) by {
                assert(from_live(rules, p, c, r1[t]));
                let i = choose|i: int| 0 <= i < rules.len() && live(rules[i], p, c) && #[trigger] substitute(rules[i], p, c) == r1[t];
                lemma_drop_keep_sets(rules[i].1, c);
                lemma_drop_keep_sets(rules[i].2, p);
                assert(substitute(rules[i], p, c).1.to_set() == rules[i].1.to_set().difference(c));
                assert(!body_holds_v(rules[i], s));
            }
        }
        if constraints_v(r1, s) {
            assert forall|i: int| 0 <= i < rules.len() && (#[trigger] rules[i]).0 is None implies !body_holds_v(rules[i], s) by {
                if body_holds_v(rules[i], s) {
                    assert(live(rules[i], p, c));
                    assert(r1.contains(substitute(rules[i], p, c)));
                    let t = choose|t: int| 0 <= t < r1.len() && r1[t] == substitute(rules[i], p, c);
                    assert(substitute(rules[i], p, c).1.to_set() == rules[i].1.to_set().difference(c));
                    assert(body_holds_v(r1[t], s));
                }
            }
        }
    }
    if stable_v(rules, m) {
        lemma_lm_v_antitone(rules, e, m);
        assert(m.subset_of(p));
        lemma_lm_v_antitone(rules, m, p);
        assert(c.subset_of(m));
        assert(lm_v(r1, m) == lm_v(rules, m));
    }
    if stable_v(r1, m) {
        assert(lm_v(r1, m).subset_of(p) && c.subset_of(lm_v(r1, m)));
        assert(lm_v(r1, m) == lm_v(rules, m));
    }
}

/// Simplification preserves the answer sets: the simplified program has
/// exactly the stable models of the program it came from.
pub proof fn lemma_simplify_preserves_answer_sets(g: Ground, s: Ground, m: Set<usize>)
    requires
        rvs(s.rules@) == simplified(g.rules@),
    ensures
        stable(s.rules@, m) == stable(g.rules@, m),
{
    let r = rvs(g.rules@);
    lemma_bridge(g.rules@);
    lemma_bridge(s.rules@);
    let p = poss_of(g.rules@);
    let c = cert_of(g.rules@);
    assert(p == lm_v(r, Set::empty()));
    assert(c == lm_v(r, p));
    let r1 = shrink(r, p, c);
    let u = dedup(r1);
    let d = desubsume(u, u.len() as int);
    lemma_shrink_preserves(r, m);
    lemma_dedup_fwd(r1);
    lemma_dedup_back(r1);
    lemma_covers_equiv(r1, u);
    lemma_desubsume_equiv(u);
    lemma_lm_v_from_closed(u, d);
    assert(stable_v(d, m) == stable_v(u, m));
    assert(stable_v(u, m) == stable_v(r1, m));
}

} // verus!

verus! {

/// Simplification keeps the answer list: a list of ground-atom models is the
/// answer list of the simplified program exactly when it is the answer list
/// of the program it came from.
pub proof fn lemma_simplify_keeps_answer_list(g: Ground, s: Ground, ms: Seq<Vec<GroundAtom>>)
    requires
        ground_wf(g),
        rvs(s.rules@) == simplified(g.rules@),
        mv(s.atoms@) == mv(g.atoms@),
    ensures
        answer_list(s, ms) <==> answer_list(g, ms),
{
    assert forall|m: Set<usize>| #[trigger] stable(s.rules@, m) == stable(g.rules@, m) by {
        lemma_simplify_preserves_answer_sets(g, s, m);
    }
    assert forall|ids: Seq<Seq<usize>>| #[trigger] lists_stable(s.rules@, ids) == lists_stable(g.rules@, ids) by {
        if lists_stable(s.rules@, ids) {
            assert forall|k: int| 0 <= k < ids.len() implies ascending(#[trigger] ids[k]) && stable(g.rules@, ids[k].to_set()) by {
                assert(stable(s.rules@, ids[k].to_set()));
            }
            assert forall|m: Set<usize>| #[trigger] stable(g.rules@, m) implies exists|k: int| 0 <= k < ids.len() && (#[trigger] ids[k]).to_set() == m by {
                assert(stable(s.rules@, m));
            }
        }
        if lists_stable(g.rules@, ids) {
            assert forall|k: int| 0 <= k < ids.len() implies ascending(#[trigger] ids[k]) && stable(s.rules@, ids[k].to_set()) by {
                assert(stable(g.rules@, ids[k].to_set()));
            }
            assert forall|m: Set<usize>| #[trigger] stable(s.rules@, m) implies exists|k: int| 0 <= k < ids.len() && (#[trigger] ids[k]).to_set() == m by {
                assert(stable(g.rules@, m));
            }
        }
    }
    let n = g.atoms@.len();
    assert(s.atoms@.len() == n) by {
        assert(mv(s.atoms@) == s.atoms@.map_values(|a: GroundAtom| av(a)));
        assert(mv(g.atoms@) == g.atoms@.map_values(|a: GroundAtom| av(a)));
        assert(s.atoms@.map_values(|a: GroundAtom| av(a)).len() == s.atoms@.len());
        assert(g.atoms@.map_values(|a: GroundAtom| av(a)).len() == g.atoms@.len());
    }
    assert forall|l: Seq<usize>| (forall|j: int| 0 <= j < l.len() ==> l[j] < n)
        implies #[trigger] model_atoms(s, l) == model_atoms(g, l) by {
        assert forall|j: int| 0 <= j < l.len() implies av(s.atoms@[l[j] as int]) == av(g.atoms@[l[j] as int]) by {
            assert(mv(s.atoms@)[l[j] as int] == mv(g.atoms@)[l[j] as int]);
        }
        assert(l.map_values(|id: usize| av(s.atoms@[id as int])) =~= l.map_values(|id: usize| av(g.atoms@[id as int])));
    }
    let below = Set::new(|x: usize| x < n);
    assert forall|m: Set<usize>| #[trigger] stable(g.rules@, m) implies m.subset_of(below) by {
        assert(closed(g.rules@, m, below));
    }
    if answer_list(s, ms) {
        let (ids, each) = choose|ids: Seq<Seq<usize>>, each: Seq<Seq<AtomView>>|
            #![trigger lists_stable(s.rules@, ids), each.to_multiset()]
            lists_stable(s.rules@, ids) && each.len() == ids.len()
            && (forall|k: int| 0 <= k < ids.len() ==> (#[trigger] each[k]).to_multiset() == model_atoms(s, ids[k]))
            && mvs(ms).to_multiset() == each.to_multiset();
        assert(lists_stable(g.rules@, ids));
        assert forall|k: int| 0 <= k < ids.len() implies (#[trigger] each[k]).to_multiset() == model_atoms(g, ids[k]) by {
            assert(stable(g.rules@, ids[k].to_set()));
            assert forall|j: int| 0 <= j < ids[k].len() implies ids[k][j] < n by {
                assert(ids[k].to_set().contains(ids[k][j]));
            }
        }
    }
    if answer_list(g, ms) {
        let (ids, each) = choose|ids: Seq<Seq<usize>>, each: Seq<Seq<AtomView>>|
            #![trigger lists_stable(g.rules@, ids), each.to_multiset()]
            lists_stable(g.rules@, ids) && each.len() == ids.len()
            && (forall|k: int| 0 <= k < ids.len() ==> (#[trigger] each[k]).to_multiset() == model_atoms(g, ids[k]))
            && mvs(ms).to_multiset() == each.to_multiset();
        assert(lists_stable(s.rules@, ids));
        assert forall|k: int| 0 <= k < ids.len() implies (#[trigger] each[k]).to_multiset() == model_atoms(s, ids[k]) by {
            assert(stable(g.rules@, ids[k].to_set()));
            assert forall|j: int| 0 <= j < ids[k].len() implies ids[k][j] < n by {
                assert(ids[k].to_set().contains(ids[k][j]));
            }
        }
    }
}

} // verus!

verus! {

/// A rule the simplification leaves: both bodies strictly ascending, no
/// certainly-true atom left in the positive body, no impossible atom left in
/// the negative body.
pub open spec fn clean_rule(r: RuleView, p: Set<usize>, c: Set<usize>) -> bool {
    &&& ascending(r.1)
    &&& ascending(r.2)
    &&& r.1.to_set().disjoint(c)
    &&& r.2.to_set().subset_of(p)
}

proof fn lemma_canon_ascending(x: RuleView)
    ensures
        ascending(canon(x).1),
        ascending(canon(x).2),
        canon(x).0 == x.0,
        canon(x).1.to_set() == x.1.to_set(),
        canon(x).2.to_set() == x.2.to_set(),
{
    let lp = canon_witness(x.1);
    let ln = canon_witness(x.2);
    lemma_listing(x.1.to_set(), lp);
    lemma_listing(x.2.to_set(), ln);
}

proof fn lemma_shrink_structure(rules: Seq<RuleView>, p: Set<usize>, c: Set<usize>)
    ensures
        shrink(rules, p, c).len() <= rules.len(),
        forall|t: int| 0 <= t < shrink(rules, p, c).len() ==>
            (#[trigger] shrink(rules, p, c)[t]).1.to_set().disjoint(c) && shrink(rules, p, c)[t].2.to_set().subset_of(p),
    decreases rules.len(),
{
    if rules.len() > 0 {
        lemma_shrink_structure(rules.drop_last(), p, c);
    }
    lemma_shrink_members(rules, p, c);
    let r1 = shrink(rules, p, c);
    assert forall|t: int| 0 <= t < r1.len() implies
        (#[trigger] r1[t]).1.to_set().disjoint(c) && r1[t].2.to_set().subset_of(p) by {
        assert(from_live(rules, p, c, r1[t]));
        let i = choose|i: int| 0 <= i < rules.len() && live(rules[i], p, c) && #[trigger] substitute(rules[i], p, c) == r1[t];
        lemma_drop_keep_sets(rules[i].1, c);
        lemma_drop_keep_sets(rules[i].2, p);
    }
}

proof fn lemma_dedup_structure(rules: Seq<RuleView>)
    ensures
        dedup(rules).len() <= rules.len(),
        forall|t: int| 0 <= t < dedup(rules).len() ==> exists|i: int| 0 <= i < rules.len() && #[trigger] dedup(rules)[t] == canon(rules[i]),
        forall|a: int, b: int| 0 <= a < b < dedup(rules).len() ==> !same_key(#[trigger] dedup(rules)[a], #[trigger] dedup(rules)[b]),
    decreases rules.len(),
{
    if rules.len() > 0 {
        let pre = rules.drop_last();
        lemma_dedup_structure(pre);
        let d0 = dedup(pre);
        let x = rules.last();
        let d = dedup(rules);
        let found = exists|k: int| 0 <= k < d0.len() && same_key(#[trigger] d0[k], x);
        assert forall|t: int| 0 <= t < d.len() implies exists|i: int| 0 <= i < rules.len() && #[trigger] d[t] == canon(rules[i]) by {
            if t < d0.len() {
                assert(d[t] == d0[t]);
                let i = choose|i: int| 0 <= i < pre.len() && #[trigger] d0[t] == canon(pre[i]);
                assert(rules[i] == pre[i]);
            } else {
                assert(d[t] == canon(x));
                assert(rules[rules.len() - 1] == x);
            }
        }
        if !found {
            assert forall|a: int, b: int| 0 <= a < b < d.len() implies !same_key(#[trigger] d[a], #[trigger] d[b]) by {
                if b == d0.len() {
                    assert(d[a] == d0[a]);
                    assert(d[b] == canon(x));
                    lemma_canon_ascending(x);
                    reveal(same_key);
                    assert(!same_key(d0[a], x));
                } else {
                    assert(d[a] == d0[a] && d[b] == d0[b]);
                }
            }
        }
    }
}

/// `x` and `y` stand in `u[..k]` in this order.
pub open spec fn in_order(u: Seq<RuleView>, k: int, x: RuleView, y: RuleView) -> bool {
    exists|qa: int, qb: int| #![trigger u[qa], u[qb]] 0 <= qa < qb < k && u[qa] == x && u[qb] == y
}

proof fn lemma_desubsume_structure(u: Seq<RuleView>, k: int)
    requires
        0 <= k <= u.len(),
    ensures
        desubsume(u, k).len() <= k,
        forall|t: int| 0 <= t < desubsume(u, k).len() ==>
            forall|j: int| 0 <= j < u.len() ==> !subsumes(u[j], #[trigger] desubsume(u, k)[t]),
        forall|a: int, b: int| 0 <= a < b < desubsume(u, k).len() ==>
            in_order(u, k, #[trigger] desubsume(u, k)[a], #[trigger] desubsume(u, k)[b]),
        forall|t: int| 0 <= t < desubsume(u, k).len() ==> #[trigger] among(u, k, desubsume(u, k)[t]),
    decreases k,
{
    lemma_desubsume_members(u, k);
    if k > 0 {
        lemma_desubsume_structure(u, k - 1);
        lemma_desubsume_members(u, k - 1);
        let prev = desubsume(u, k - 1);
        let d = desubsume(u, k);
        let sub = exists|j: int| 0 <= j < u.len() && #[trigger] subsumes(u[j], u[k - 1]);
        if !sub {
            assert(d == prev.push(u[k - 1]));
            assert forall|t: int| 0 <= t < d.len() implies
                forall|j: int| 0 <= j < u.len() ==> !subsumes(u[j], #[trigger] d[t]) by {
                if t < prev.len() {
                    assert(d[t] == prev[t]);
                } else {
                    assert(d[t] == u[k - 1]);
                }
            }
            assert forall|a: int, b: int| 0 <= a < b < d.len() implies in_order(u, k, #[trigger] d[a], #[trigger] d[b]) by {
                if b < prev.len() {
                    assert(d[a] == prev[a] && d[b] == prev[b]);
                    assert(in_order(u, k - 1, prev[a], prev[b]));
                    let (qa, qb) = choose|qa: int, qb: int| #![trigger u[qa], u[qb]] 0 <= qa < qb < k - 1 && u[qa] == prev[a] && u[qb] == prev[b];
                    assert(u[qa] == d[a] && u[qb] == d[b]);
                } else {
                    assert(d[a] == prev[a]);
                    assert(among(u, k - 1, prev[a]));
                    let qa = choose|qa: int| 0 <= qa < k - 1 && #[trigger] u[qa] == prev[a];
                    assert(d[b] == u[k - 1]);
                    assert(u[qa] == d[a] && u[k - 1] == d[b]);
                }
            }
        } else {
            assert(d == prev);
            assert forall|a: int, b: int| 0 <= a < b < d.len() implies in_order(u, k, #[trigger] d[a], #[trigger] d[b]) by {
                assert(in_order(u, k - 1, prev[a], prev[b]));
                let (qa, qb) = choose|qa: int, qb: int| #![trigger u[qa], u[qb]] 0 <= qa < qb < k - 1 && u[qa] == prev[a] && u[qb] == prev[b];
                assert(u[qa] == d[a] && u[qb] == d[b]);
            }
        }
    }
}

/// The shape of a simplified program: no more rules than before; every rule
/// with strictly ascending bodies, no certainly-true atom in its positive
/// body and no impossible atom in its negative body; no two rules with the
/// same head and the same bodies; no rule subsuming another (same head,
/// bodies included in the other's and shorter).
pub proof fn lemma_simplify_structure(rules: Seq<GRule>)
    ensures
        simplified(rules).len() <= rules.len(),
        forall|t: int| 0 <= t < simplified(rules).len() ==>
            clean_rule(#[trigger] simplified(rules)[t], poss_of(rules), cert_of(rules)),
        forall|a: int, b: int| 0 <= a < b < simplified(rules).len() ==>
            !same_key(#[trigger] simplified(rules)[a], #[trigger] simplified(rules)[b]),
        forall|a: int, b: int| 0 <= a < simplified(rules).len() && 0 <= b < simplified(rules).len() ==>
            !subsumes(#[trigger] simplified(rules)[a], #[trigger] simplified(rules)[b]),
{
    let r = rvs(rules);
    let p = poss_of(rules);
    let c = cert_of(rules);
    let r1 = shrink(r, p, c);
    let u = dedup(r1);
    let d = desubsume(u, u.len() as int);
    assert(d == simplified(rules));
    lemma_shrink_structure(r, p, c);
    lemma_dedup_structure(r1);
    lemma_desubsume_structure(u, u.len() as int);
    assert(r.len() == rules.len());
    assert forall|t: int| 0 <= t < d.len() implies clean_rule(#[trigger] d[t], p, c) by {
        assert(among(u, u.len() as int, d[t]));
        let q = choose|q: int| 0 <= q < u.len() && #[trigger] u[q] == d[t];
        let i = choose|i: int| 0 <= i < r1.len() && #[trigger] u[q] == canon(r1[i]);
        lemma_canon_ascending(r1[i]);
        assert(r1[i].1.to_set().disjoint(c) && r1[i].2.to_set().subset_of(p));
    }
    assert forall|a: int, b: int| 0 <= a < b < d.len() implies !same_key(#[trigger] d[a], #[trigger] d[b]) by {
        assert(in_order(u, u.len() as int, d[a], d[b]));
        let (qa, qb) = choose|qa: int, qb: int| #![trigger u[qa], u[qb]] 0 <= qa < qb < u.len() && u[qa] == d[a] && u[qb] == d[b];
        assert(!same_key(u[qa], u[qb]));
    }
    assert forall|a: int, b: int| 0 <= a < d.len() && 0 <= b < d.len() implies !subsumes(#[trigger] d[a], #[trigger] d[b]) by {
        assert(among(u, u.len() as int, d[a]));
        let q = choose|q: int| 0 <= q < u.len() && #[trigger] u[q] == d[a];
        assert(!subsumes(u[q], d[b]));
    }
}

/// Total body length of rules given by content.
pub open spec fn lits_v(rules: Seq<RuleView>) -> nat
    decreases rules.len(),
{
    if rules.len() == 0 { 0 } else { lits_v(rules.drop_last()) + rules.last().1.len() + rules.last().2.len() }
}

proof fn lemma_lits_bridge(rules: Seq<GRule>)
    ensures
        lits_v(rvs(rules)) == literals(rules),
    decreases rules.len(),
{
    if rules.len() > 0 {
        lemma_lits_bridge(rules.drop_last());
        assert(rvs(rules).drop_last() =~= rvs(rules.drop_last()));
    }
}

proof fn lemma_shrink_lits(rules: Seq<RuleView>, p: Set<usize>, c: Set<usize>)
    ensures
        lits_v(shrink(rules, p, c)) <= lits_v(rules),
    decreases rules.len(),
{
    if rules.len() > 0 {
        lemma_shrink_lits(rules.drop_last(), p, c);
        lemma_drop_keep_sets(rules.last().1, c);
        lemma_drop_keep_sets(rules.last().2, p);
        if live(rules.last(), p, c) {
            let prev = shrink(rules.drop_last(), p, c);
            assert(shrink(rules, p, c).drop_last() =~= prev);
        }
    }
}

proof fn lemma_ascending_no_dup(l: Seq<usize>)
    requires
        ascending(l),
    ensures
        l.no_duplicates(),
{
    assert forall|i: int, j: int| 0 <= i < l.len() && 0 <= j < l.len() && i != j implies l[i] != l[j] by {
        if i < j { assert(l[i] < l[j]); } else { assert(l[j] < l[i]); }
    }
}

proof fn lemma_canon_shorter(x: RuleView)
    ensures
        canon(x).1.len() <= x.1.len(),
        canon(x).2.len() <= x.2.len(),
{
    lemma_canon_ascending(x);
    lemma_ascending_no_dup(canon(x).1);
    lemma_ascending_no_dup(canon(x).2);
    canon(x).1.unique_seq_to_set();
    canon(x).2.unique_seq_to_set();
    x.1.lemma_cardinality_of_set();
    x.2.lemma_cardinality_of_set();
}

proof fn lemma_dedup_lits(rules: Seq<RuleView>)
    ensures
        lits_v(dedup(rules)) <= lits_v(rules),
    decreases rules.len(),
{
    if rules.len() > 0 {
        let pre = rules.drop_last();
        lemma_dedup_lits(pre);
        let d0 = dedup(pre);
        let x = rules.last();
        if !(exists|k: int| 0 <= k < d0.len() && same_key(#[trigger] d0[k], x)) {
            lemma_canon_shorter(x);
            assert(dedup(rules).drop_last() =~= d0);
        }
    }
}

proof fn lemma_desubsume_lits(u: Seq<RuleView>, k: int)
    requires
        0 <= k <= u.len(),
    ensures
        lits_v(desubsume(u, k)) <= lits_v(u.take(k)),
    decreases k,
{
    if k > 0 {
        lemma_desubsume_lits(u, k - 1);
        assert(u.take(k).drop_last() =~= u.take(k - 1));
        assert(u.take(k).last() == u[k - 1]);
        if !(exists|j: int| 0 <= j < u.len() && #[trigger] subsumes(u[j], u[k - 1])) {
            assert(desubsume(u, k).drop_last() =~= desubsume(u, k - 1));
        }
    }
}

/// Simplification never lengthens the program: the simplified program has no
/// more rules, and no more body literals in all, than the one it came from.
pub proof fn lemma_simplify_shrinks_program(g: Ground, s: Ground)
    requires
        rvs(s.rules@) == simplified(g.rules@),
    ensures
        s.rules@.len() <= g.rules@.len(),
        literals(s.rules@) <= literals(g.rules@),
{
    let rules = g.rules@;
    let r = rvs(rules);
    let p = poss_of(rules);
    let c = cert_of(rules);
    let r1 = shrink(r, p, c);
    let u = dedup(r1);
    lemma_lits_bridge(rules);
    lemma_lits_bridge(s.rules@);
    lemma_shrink_lits(r, p, c);
    lemma_dedup_lits(r1);
    lemma_desubsume_lits(u, u.len() as int);
    assert(u.take(u.len() as int) =~= u);
    lemma_simplify_structure(rules);
    assert(rvs(s.rules@).len() == s.rules@.len());
}

proof fn lemma_negated_finite(rules: Seq<GRule>)
    ensures
        negated(rules).finite(),
    decreases rules.len(),
{
    if rules.len() > 0 {
        let pre = rules.drop_last();
        lemma_negated_finite(pre);
        let last = rules.last().neg@.to_set();
        assert(negated(rules) =~= negated(pre).union(last)) by {
            assert forall|x: usize| negated(rules).contains(x) implies negated(pre).union(last).contains(x) by {
                let (i, k) = choose|i: int, k: int| 0 <= i < rules.len() && 0 <= k < rules[i].neg@.len() && #[trigger] rules[i].neg@[k] == x;
                if i < pre.len() {
                    assert(pre[i] == rules[i]);
                } else {
                    assert(rules.last().neg@.contains(x));
                }
            }
            assert forall|x: usize| negated(pre).union(last).contains(x) implies negated(rules).contains(x) by {
                if negated(pre).contains(x) {
                    let (i, k) = choose|i: int, k: int| 0 <= i < pre.len() && 0 <= k < pre[i].neg@.len() && #[trigger] pre[i].neg@[k] == x;
                    assert(rules[i] == pre[i]);
                    assert(rules[i].neg@[k] == x);
                } else {
                    let k = choose|k: int| 0 <= k < rules.last().neg@.len() && rules.last().neg@[k] == x;
                    assert(rules[rules.len() - 1].neg@[k] == x);
                }
            }
        }
    } else {
        assert(negated(rules) =~= Set::<usize>::empty());
    }
}

/// Simplification adds no negated atom: every atom negated in the simplified
/// program is negated in the program it came from, so the simplified program
/// has no more atoms to guess.
pub proof fn lemma_simplify_keeps_negated(g: Ground, s: Ground)
    requires
        rvs(s.rules@) == simplified(g.rules@),
    ensures
        negated(s.rules@).subset_of(negated(g.rules@)),
        negated(s.rules@).len() <= negated(g.rules@).len(),
{
    let rules = g.rules@;
    let r = rvs(rules);
    let p = poss_of(rules);
    let c = cert_of(rules);
    let r1 = shrink(r, p, c);
    let u = dedup(r1);
    let d = desubsume(u, u.len() as int);
    assert(d == simplified(rules));
    lemma_shrink_members(r, p, c);
    lemma_dedup_structure(r1);
    lemma_desubsume_structure(u, u.len() as int);
    assert forall|x: usize| negated(s.rules@).contains(x) implies negated(rules).contains(x) by {
        let (i, k) = choose|i: int, k: int| 0 <= i < s.rules@.len() && 0 <= k < s.rules@[i].neg@.len() && #[trigger] s.rules@[i].neg@[k] == x;
        assert(rvs(s.rules@)[i] == rv(s.rules@[i]));
        assert(d[i].2 == s.rules@[i].neg@);
        assert(d[i].2.contains(x));
        assert(among(u, u.len() as int, d[i]));
        let q = choose|q: int| 0 <= q < u.len() && #[trigger] u[q] == d[i];
        let j = choose|j: int| 0 <= j < r1.len() && #[trigger] u[q] == canon(r1[j]);
        lemma_canon_ascending(r1[j]);
        assert(canon(r1[j]).2.to_set().contains(x));
        assert(r1[j].2.to_set().contains(x));
        assert(from_live(r, p, c, r1[j]));
        let l = choose|l: int| 0 <= l < r.len() && live(r[l], p, c) && #[trigger] substitute(r[l], p, c) == r1[j];
        lemma_drop_keep_sets(r[l].2, p);
        assert(r[l].2.to_set().contains(x));
        assert(r[l] == rv(rules[l]));
        let m = choose|m: int| 0 <= m < rules[l].neg@.len() && rules[l].neg@[m] == x;
        assert(rules[l].neg@[m] == x);
    }
    lemma_negated_finite(rules);
    vstd::set_lib::lemma_len_subset(negated(s.rules@), negated(rules));
}

} // verus!
