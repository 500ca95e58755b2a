//! Provenance capture: each derived tuple carries its minimal proof DNF over
//! the probabilistic leaves.
//!
//! A *proof* is the set of probabilistic EDB facts a derivation rests on,
//! written as signed literals: `+(i+1)` means probabilistic fact `i` is present,
//! `-(i+1)` absent (the dual literal, with `x·x̄ = 0`). A tuple's provenance is
//! the absorption-minimal antichain of its proofs: dropping a proof that is a
//! superset of another loses nothing. Proofs are held as ascending literal
//! vectors, a proof set as a vector of proofs no one of which contains another.
use vstd::prelude::*;
use crate::text::same_text;

verus! {

/// One proof: ascending signed literals over probabilistic-fact indices (±(i+1)).
pub type Proof = Vec<i64>;
/// A tuple's provenance: an absorption-minimal antichain of proofs.
pub type ProofSet = Vec<Proof>;
/// A ground tuple, its values interned as integers.
pub type Tuple = Vec<i64>;

/// The per-tuple budget for exact capture: a proof set that grows past it is refused.
pub const MAX_PROOFS_PER_TUPLE: usize = 10000;

/// How a predicate's provenance is kept.
#[derive(Debug, Clone, Copy, PartialEq, Eq, Structural)]
pub enum ProvMode {
    /// Keep every minimal proof (exact counting downstream).
    Exact,
    /// Keep the k best proofs per tuple (a lower bound downstream).
    TopK(u32),
}

// ---------------------------------------------------------------------------
// The model: proofs as sets of literals, proof sets as sets of proofs, and what
// a proof DNF means in a world.

/// A literal names a fact: it is neither zero nor the one value without a negation.
pub open spec fn lit_ok(l: i64) -> bool {
    l != 0 && l != i64::MIN
}

/// The dual literal.
pub open spec fn neg(l: i64) -> i64 {
    (-l) as i64
}

/// A proof vector is strictly ascending and holds only literals.
pub open spec fn canonical(p: Seq<i64>) -> bool {
    &&& forall|i: int, j: int| 0 <= i < j < p.len() ==> p[i] < p[j]
    &&& forall|i: int| 0 <= i < p.len() ==> lit_ok(#[trigger] p[i])
}

/// Every proof of the vector is canonical.
pub open spec fn all_canonical(ps: Seq<Vec<i64>>) -> bool {
    forall|i: int| 0 <= i < ps.len() ==> canonical(#[trigger] ps[i]@)
}

/// No proof of the vector contains another (so no proof occurs twice).
pub open spec fn anti_vec(ps: Seq<Vec<i64>>) -> bool {
    forall|i: int, j: int|
        0 <= i < ps.len() && 0 <= j < ps.len() && i != j ==> !(#[trigger] ps[i]@.to_set()).subset_of(
            #[trigger] ps[j]@.to_set(),
        )
}

/// No literal occurs together with its dual.
pub open spec fn consistent(s: Set<i64>) -> bool {
    forall|l: i64| s.contains(l) ==> !s.contains(#[trigger] neg(l))
}

/// Some proof of the vector has exactly the literals `s`.
pub open spec fn proof_at(ps: Seq<Vec<i64>>, s: Set<i64>) -> bool {
    exists|i: int| 0 <= i < ps.len() && #[trigger] ps[i]@.to_set() == s
}

/// The proof DNF a vector of proofs stands for.
pub open spec fn dnf(ps: Seq<Vec<i64>>) -> Set<Set<i64>> {
    Set::new(|s: Set<i64>| proof_at(ps, s))
}

/// The literal sets of the proofs, in order.
pub open spec fn sets_of(ps: Seq<Vec<i64>>) -> Seq<Set<i64>> {
    ps.map_values(|p: Vec<i64>| p@.to_set())
}

/// No member of `r` is contained in another.
pub open spec fn antichain(r: Set<Set<i64>>) -> bool {
    forall|a: Set<i64>, b: Set<i64>| r.contains(a) && r.contains(b) && a.subset_of(b) ==> a == b
}

/// Some member of `r` is contained in `c`.
pub open spec fn covered(r: Set<Set<i64>>, c: Set<i64>) -> bool {
    exists|k: Set<i64>| r.contains(k) && k.subset_of(c)
}

/// The members of `s` that contain no other member of `s`.
pub open spec fn minimal(s: Set<Set<i64>>) -> Set<Set<i64>> {
    Set::new(|c: Set<i64>| s.contains(c) && forall|d: Set<i64>| s.contains(d) && d.subset_of(c) ==> d == c)
}

/// `r` is drawn from `s`, covers every member of `s`, and is an antichain.
pub open spec fn is_min_of(r: Set<Set<i64>>, s: Set<Set<i64>>) -> bool {
    &&& r.subset_of(s)
    &&& forall|c: Set<i64>| s.contains(c) ==> covered(r, c)
    &&& antichain(r)
}

/// `c` is the union of a proof of `a` and a proof of `b`.
pub open spec fn joinable(a: Set<Set<i64>>, b: Set<Set<i64>>, c: Set<i64>) -> bool {
    exists|x: Set<i64>, y: Set<i64>| a.contains(x) && b.contains(y) && c == x.union(y)
}

/// The consistent pairwise unions of two proof DNFs.
pub open spec fn cands(a: Set<Set<i64>>, b: Set<Set<i64>>) -> Set<Set<i64>> {
    Set::new(|c: Set<i64>| joinable(a, b, c) && consistent(c))
}

/// The DNF product `a ⊗ b`: the minimal consistent pairwise unions.
pub open spec fn product_spec(a: Set<Set<i64>>, b: Set<Set<i64>>) -> Set<Set<i64>> {
    minimal(cands(a, b))
}

/// The DNF of the negation of one proof: one single dual literal per literal.
pub open spec fn negations(p: Set<i64>) -> Set<Set<i64>> {
    Set::new(|s: Set<i64>| exists|l: i64| p.contains(l) && s == set![neg(l)])
}

/// The complement of the first `k` proofs of `ps`, distributed as a DNF.
pub open spec fn complement_upto(ps: Seq<Set<i64>>, k: nat) -> Set<Set<i64>>
    decreases k,
{
    if k == 0 {
        set![Set::<i64>::empty()]
    } else {
        product_spec(complement_upto(ps, (k - 1) as nat), negations(ps[k - 1]))
    }
}

/// Literal `l` is true in world `w` (which says which facts are present).
pub open spec fn holds(w: spec_fn(i64) -> bool, l: i64) -> bool {
    if l > 0 { w(l) } else { !w(neg(l)) }
}

/// Every literal of proof `p` is true in `w`.
pub open spec fn satisfies(w: spec_fn(i64) -> bool, p: Set<i64>) -> bool {
    forall|l: i64| p.contains(l) ==> #[trigger] holds(w, l)
}

/// Some proof of the DNF `s` is true in `w`.
pub open spec fn dnf_holds(w: spec_fn(i64) -> bool, s: Set<Set<i64>>) -> bool {
    exists|p: Set<i64>| s.contains(p) && satisfies(w, p)
}

// ---------------------------------------------------------------------------
// Lemmas on the model.

proof fn lemma_neg_dual(w: spec_fn(i64) -> bool, l: i64)
    requires
        lit_ok(l),
    ensures
        lit_ok(neg(l)),
        neg(neg(l)) == l,
        holds(w, neg(l)) == !holds(w, l),
{
}

/// A minimal cover is exactly the set of minimal members.
proof fn lemma_min_is_minimal(r: Set<Set<i64>>, s: Set<Set<i64>>)
    requires
        is_min_of(r, s),
    ensures
        r == minimal(s),
{
    assert forall|c: Set<i64>| r.contains(c) implies minimal(s).contains(c) by {
        assert forall|d: Set<i64>| s.contains(d) && d.subset_of(c) implies d == c by {
            assert(covered(r, d));
            let k = choose|k: Set<i64>| r.contains(k) && k.subset_of(d);
            assert(k.subset_of(c));
            assert(k == c);
            assert(d =~= c);
        }
    }
    assert forall|c: Set<i64>| minimal(s).contains(c) implies r.contains(c) by {
        assert(covered(r, c));
        let k = choose|k: Set<i64>| r.contains(k) && k.subset_of(c);
        assert(s.contains(k));
        assert(k == c);
    }
    assert(r =~= minimal(s));
}

/// Adding a candidate `p` to a minimal cover of `s` the way `insert_minimal`
/// does gives a minimal cover of `s ∪ {p}`.
proof fn lemma_min_insert(r: Set<Set<i64>>, s: Set<Set<i64>>, p: Set<i64>)
    requires
        is_min_of(r, s),
    ensures
        covered(r, p) ==> is_min_of(r, s.insert(p)),
        !covered(r, p) ==> is_min_of(
            Set::new(|k: Set<i64>| r.contains(k) && !p.subset_of(k)).insert(p),
            s.insert(p),
        ),
{
    if !covered(r, p) {
        let r2 = Set::new(|k: Set<i64>| r.contains(k) && !p.subset_of(k)).insert(p);
        assert forall|c: Set<i64>| s.insert(p).contains(c) implies covered(r2, c) by {
            if c == p {
                assert(r2.contains(p) && p.subset_of(c));
            } else {
                assert(covered(r, c));
                let k = choose|k: Set<i64>| r.contains(k) && k.subset_of(c);
                if p.subset_of(k) {
                    assert(r2.contains(p) && p.subset_of(c));
                } else {
                    assert(r2.contains(k) && k.subset_of(c));
                }
            }
        }
        assert forall|a: Set<i64>, b: Set<i64>| r2.contains(a) && r2.contains(b) && a.subset_of(b) implies a == b by {
            if a == p && b != p {
                assert(!p.subset_of(b));
            } else if a != p && b == p {
                assert(r.contains(a) && a.subset_of(p));
                assert(covered(r, p));
            }
        }
    } else {
        assert forall|c: Set<i64>| s.insert(p).contains(c) implies covered(r, c) by {
            if c != p {
                assert(s.contains(c));
            }
        }
    }
}

/// A vector of pairwise incomparable proofs stands for as many distinct proofs.
proof fn lemma_dnf_len(ps: Seq<Vec<i64>>)
    requires
        anti_vec(ps),
    ensures
        dnf(ps).finite(),
        dnf(ps).len() == ps.len(),
{
    let m = sets_of(ps);
    assert forall|i: int, j: int| 0 <= i < m.len() && 0 <= j < m.len() && i != j implies m[i] != m[j] by {
        assert(!ps[i]@.to_set().subset_of(ps[j]@.to_set()));
    }
    assert(m.no_duplicates());
    m.unique_seq_to_set();
    vstd::seq_lib::seq_to_set_is_finite(m);
    assert forall|s: Set<i64>| dnf(ps).contains(s) <==> m.to_set().contains(s) by {
        if proof_at(ps, s) {
            let i = choose|i: int| 0 <= i < ps.len() && #[trigger] ps[i]@.to_set() == s;
            assert(m[i] == s);
        }
        if m.contains(s) {
            let i = choose|i: int| 0 <= i < m.len() && m[i] == s;
            assert(ps[i]@.to_set() == s);
        }
    }
    assert(dnf(ps) =~= m.to_set());
}

/// A proof DNF and its product with another are true in the same worlds as the
/// conjunction of the two.
proof fn lemma_product_meaning(
    a: Seq<Vec<i64>>,
    b: Seq<Vec<i64>>,
    r: Seq<Vec<i64>>,
    w: spec_fn(i64) -> bool,
)
    requires
        all_canonical(a),
        all_canonical(b),
        is_min_of(dnf(r), cands(dnf(a), dnf(b))),
    ensures
        dnf_holds(w, dnf(r)) <==> dnf_holds(w, dnf(a)) && dnf_holds(w, dnf(b)),
{
    if dnf_holds(w, dnf(r)) {
        let s = choose|s: Set<i64>| dnf(r).contains(s) && satisfies(w, s);
        assert(cands(dnf(a), dnf(b)).contains(s));
        let (x, y) = choose|x: Set<i64>, y: Set<i64>|
            dnf(a).contains(x) && dnf(b).contains(y) && s == x.union(y);
        assert forall|l: i64| x.contains(l) implies #[trigger] holds(w, l) by {
            assert(s.contains(l));
        }
        assert forall|l: i64| y.contains(l) implies #[trigger] holds(w, l) by {
            assert(s.contains(l));
        }
        assert(satisfies(w, x) && satisfies(w, y));
    }
    if dnf_holds(w, dnf(a)) && dnf_holds(w, dnf(b)) {
        let x = choose|x: Set<i64>| dnf(a).contains(x) && satisfies(w, x);
        let y = choose|y: Set<i64>| dnf(b).contains(y) && satisfies(w, y);
        let c = x.union(y);
        let i = choose|i: int| 0 <= i < a.len() && #[trigger] a[i]@.to_set() == x;
        let j = choose|j: int| 0 <= j < b.len() && #[trigger] b[j]@.to_set() == y;
        assert(canonical(a[i]@) && canonical(b[j]@));
        assert forall|l: i64| c.contains(l) implies lit_ok(l) && #[trigger] holds(w, l) by {
            if x.contains(l) {
                let q = choose|q: int| 0 <= q < a[i]@.len() && a[i]@[q] == l;
                assert(lit_ok(a[i]@[q]));
            } else {
                let q = choose|q: int| 0 <= q < b[j]@.len() && b[j]@[q] == l;
                assert(lit_ok(b[j]@[q]));
            }
        }
        assert forall|l: i64| c.contains(l) implies !c.contains(#[trigger] neg(l)) by {
            lemma_neg_dual(w, l);
            if c.contains(neg(l)) {
                assert(holds(w, neg(l)));
            }
        }
        assert(joinable(dnf(a), dnf(b), c));
        assert(cands(dnf(a), dnf(b)).contains(c));
        assert(covered(dnf(r), c));
        let k = choose|k: Set<i64>| dnf(r).contains(k) && k.subset_of(c);
        assert forall|l: i64| k.contains(l) implies #[trigger] holds(w, l) by {
            assert(c.contains(l));
        }
        assert(satisfies(w, k));
    }
}

/// The negations of a proof are true exactly in the worlds where the proof is not.
proof fn lemma_negations_meaning(p: Seq<i64>, w: spec_fn(i64) -> bool)
    requires
        canonical(p),
    ensures
        dnf_holds(w, negations(p.to_set())) <==> !satisfies(w, p.to_set()),
{
    let ps = p.to_set();
    if dnf_holds(w, negations(ps)) {
        let s = choose|s: Set<i64>| negations(ps).contains(s) && satisfies(w, s);
        let l = choose|l: i64| ps.contains(l) && s == set![neg(l)];
        let q = choose|q: int| 0 <= q < p.len() && p[q] == l;
        assert(lit_ok(p[q]));
        lemma_neg_dual(w, l);
        assert(s.contains(neg(l)));
        assert(holds(w, neg(l)));
    }
    if !satisfies(w, ps) {
        let l = choose|l: i64| ps.contains(l) && !holds(w, l);
        let q = choose|q: int| 0 <= q < p.len() && p[q] == l;
        assert(lit_ok(p[q]));
        lemma_neg_dual(w, l);
        let s = set![neg(l)];
        assert(negations(ps).contains(s));
        assert forall|m: i64| s.contains(m) implies #[trigger] holds(w, m) by {
            assert(m == neg(l));
        }
        assert(satisfies(w, s));
    }
}

// ---------------------------------------------------------------------------
// Literal vectors.

/// Whether literal `x` occurs in `v`.
fn contains_lit(v: &Vec<i64>, x: i64) -> (r: bool)
    ensures
        r == v@.contains(x),
{
    let mut i: usize = 0;
    while i < v.len()
        invariant
            i <= v@.len(),
            forall|k: int| 0 <= k < i ==> v@[k] != x,
        decreases v@.len() - i,
    {
        if v[i] == x {
            return true;
        }
        i = i + 1;
    }
    false
}

/// Whether every literal of `a` occurs in `b`.
fn is_subset(a: &Vec<i64>, b: &Vec<i64>) -> (r: bool)
    ensures
        r == a@.to_set().subset_of(b@.to_set()),
{
    let mut i: usize = 0;
    while i < a.len()
        invariant
            i <= a@.len(),
            forall|k: int| 0 <= k < i ==> b@.contains(#[trigger] a@[k]),
        decreases a@.len() - i,
    {
        if !contains_lit(b, a[i]) {
            assert(a@.to_set().contains(a@[i as int]));
            return false;
        }
        i = i + 1;
    }
    assert forall|x: i64| a@.to_set().contains(x) implies b@.to_set().contains(x) by {
        let k = choose|k: int| 0 <= k < a@.len() && a@[k] == x;
        assert(b@.contains(a@[k]));
    }
    true
}

/// A copy of a literal vector.
fn copy_lits(v: &Vec<i64>) -> (r: Vec<i64>)
    ensures
        r@ == v@,
{
    let mut r: Vec<i64> = Vec::new();
    let mut i: usize = 0;
    while i < v.len()
        invariant
            i <= v@.len(),
            r@ == v@.take(i as int),
        decreases v@.len() - i,
    {
        r.push(v[i]);
        i = i + 1;
        assert(r@ =~= v@.take(i as int));
    }
    assert(v@.take(i as int) =~= v@);
    r
}

/// Insert literal `x` into the strictly ascending vector `v`.
fn insert_lit(v: &mut Vec<i64>, x: i64)
    requires
        canonical(old(v)@),
        lit_ok(x),
    ensures
        canonical(final(v)@),
        final(v)@.to_set() == old(v)@.to_set().insert(x),
{
    let mut i: usize = 0;
    while i < v.len() && v[i] < x
        invariant
            i <= v@.len(),
            forall|q: int| 0 <= q < i ==> v@[q] < x,
        decreases v@.len() - i,
    {
        i = i + 1;
    }
    if i < v.len() && v[i] == x {
        assert(v@.to_set() =~= v@.to_set().insert(x)) by {
            assert(v@.contains(x)) by { assert(v@[i as int] == x); }
        }
        return;
    }
    let ghost old_v = v@;
    v.insert(i, x);
    proof {
        assert forall|a: int, b: int| 0 <= a < b < v@.len() implies v@[a] < v@[b] by {
            if a < i && b > i { assert(v@[b] == old_v[b - 1]); }
            if a > i { assert(v@[a] == old_v[a - 1]); assert(v@[b] == old_v[b - 1]); }
            if a == i && b > i { assert(v@[b] == old_v[b - 1]); assert(old_v[i as int] != x); }
        }
        assert forall|a: int| 0 <= a < v@.len() implies lit_ok(#[trigger] v@[a]) by {
            if a < i { assert(v@[a] == old_v[a]); }
            if a > i { assert(v@[a] == old_v[a - 1]); }
        }
        assert forall|y: i64| v@.to_set().contains(y) <==> old_v.to_set().insert(x).contains(y) by {
            if v@.contains(y) {
                let k = choose|k: int| 0 <= k < v@.len() && v@[k] == y;
                if k < i { assert(old_v[k] == y); } else if k > i { assert(old_v[k - 1] == y); }
            }
            if old_v.contains(y) {
                let k = choose|k: int| 0 <= k < old_v.len() && old_v[k] == y;
                if k < i { assert(v@[k] == y); } else { assert(v@[k + 1] == y); }
            }
            if y == x { assert(v@[i as int] == x); }
        }
        assert(v@.to_set() =~= old_v.to_set().insert(x));
    }
}

/// The union of two proofs, ascending.
fn union_lits(a: &Vec<i64>, b: &Vec<i64>) -> (r: Vec<i64>)
    requires
        canonical(a@),
        canonical(b@),
    ensures
        canonical(r@),
        r@.to_set() == a@.to_set().union(b@.to_set()),
{
    let mut r = copy_lits(a);
    let mut i: usize = 0;
    while i < b.len()
        invariant
            i <= b@.len(),
            canonical(r@),
            canonical(b@),
            r@.to_set() == a@.to_set().union(b@.take(i as int).to_set()),
        decreases b@.len() - i,
    {
        assert(lit_ok(b@[i as int]));
        insert_lit(&mut r, b[i]);
        proof {
            assert(b@.take(i + 1) =~= b@.take(i as int).push(b@[i as int]));
            crate::math::lemma_push_to_set(b@.take(i as int), b@[i as int]);
            assert(r@.to_set() =~= a@.to_set().union(b@.take(i + 1).to_set()));
        }
        i = i + 1;
    }
    proof {
        assert(b@.take(i as int) =~= b@);
        if i == 0 {
            assert(b@.take(0).to_set() =~= Set::<i64>::empty());
        }
    }
    r
}

/// Whether no literal of the proof occurs together with its dual.
fn is_consistent(p: &Vec<i64>) -> (r: bool)
    requires
        canonical(p@),
    ensures
        r == consistent(p@.to_set()),
{
    let mut i: usize = 0;
    while i < p.len()
        invariant
            i <= p@.len(),
            canonical(p@),
            forall|k: int| 0 <= k < i ==> !p@.contains(#[trigger] neg(p@[k])),
        decreases p@.len() - i,
    {
        let l = p[i];
        assert(lit_ok(p@[i as int]));
        if contains_lit(p, -l) {
            assert(p@.to_set().contains(l) && p@.to_set().contains(neg(l)));
            return false;
        }
        i = i + 1;
    }
    assert forall|l: i64| p@.to_set().contains(l) implies !p@.to_set().contains(#[trigger] neg(l)) by {
        let k = choose|k: int| 0 <= k < p@.len() && p@[k] == l;
        assert(!p@.contains(neg(p@[k])));
    }
    true
}

// ---------------------------------------------------------------------------
// Proof sets.

/// Insert `proof` into `set` keeping it absorption-minimal: nothing changes if
/// a kept proof is contained in it; otherwise the kept proofs that contain it
/// leave and it joins. Returns whether the set changed.
pub fn insert_minimal(set: &mut ProofSet, proof: Proof) -> (changed: bool)
    ensures
        covered(dnf(old(set)@), proof@.to_set()) ==> !changed && final(set)@ == old(set)@,
        !covered(dnf(old(set)@), proof@.to_set()) ==> changed && dnf(final(set)@) == Set::new(
            |k: Set<i64>| dnf(old(set)@).contains(k) && !proof@.to_set().subset_of(k),
        ).insert(proof@.to_set()),
        anti_vec(old(set)@) ==> anti_vec(final(set)@),
        all_canonical(old(set)@) && canonical(proof@) ==> all_canonical(final(set)@),
{
    let ghost p = proof@.to_set();
    let mut i: usize = 0;
    while i < set.len()
        invariant
            i <= set@.len(),
            forall|k: int| 0 <= k < i ==> !(#[trigger] set@[k]@.to_set()).subset_of(p),
            p == proof@.to_set(),
        decreases set@.len() - i,
    {
        if is_subset(&set[i], &proof) {
            assert(dnf(set@).contains(set@[i as int]@.to_set()));
            return false;
        }
        i = i + 1;
    }
    assert(!covered(dnf(set@), p)) by {
        if covered(dnf(set@), p) {
            let k = choose|k: Set<i64>| dnf(set@).contains(k) && k.subset_of(p);
            let j = choose|j: int| 0 <= j < set@.len() && #[trigger] set@[j]@.to_set() == k;
        }
    }
    let ghost old_s = set@;
    let mut kept: Vec<Vec<i64>> = Vec::new();
    let ghost mut idx: Seq<int> = Seq::empty();
    let mut j: usize = 0;
    while j < set.len()
        invariant
            set@ == old_s,
            j <= old_s.len(),
            p == proof@.to_set(),
            idx.len() == kept@.len(),
            forall|a: int, b: int| 0 <= a < b < idx.len() ==> idx[a] < idx[b],
            forall|a: int| 0 <= a < idx.len() ==> 0 <= #[trigger] idx[a] < j,
            forall|a: int| 0 <= a < idx.len() ==> kept@[a]@ == old_s[#[trigger] idx[a]]@,
            forall|a: int| 0 <= a < kept@.len() ==> !p.subset_of(#[trigger] kept@[a]@.to_set()),
            forall|q: int| 0 <= q < j && !p.subset_of(#[trigger] old_s[q]@.to_set()) ==> exists|a: int|
                0 <= a < idx.len() && idx[a] == q,
        decreases old_s.len() - j,
    {
        let ghost idx0 = idx;
        if !is_subset(&proof, &set[j]) {
            let c = copy_lits(&set[j]);
            kept.push(c);
            proof {
                idx = idx.push(j as int);
                assert(idx[idx.len() - 1] == j);
            }
        }
        proof {
            assert forall|q: int| 0 <= q < j + 1 && !p.subset_of(#[trigger] old_s[q]@.to_set()) implies exists|a: int|
                0 <= a < idx.len() && idx[a] == q by {
                if q < j {
                    let a = choose|a: int| 0 <= a < idx0.len() && idx0[a] == q;
                    assert(idx[a] == q);
                } else {
                    assert(idx[idx.len() - 1] == q);
                }
            }
        }
        j = j + 1;
    }
    let ghost kept0 = kept@;
    kept.push(proof);
    proof {
        let target = Set::new(|k: Set<i64>| dnf(old_s).contains(k) && !p.subset_of(k)).insert(p);
        assert forall|s: Set<i64>| dnf(kept@).contains(s) <==> target.contains(s) by {
            if proof_at(kept@, s) {
                let a = choose|a: int| 0 <= a < kept@.len() && #[trigger] kept@[a]@.to_set() == s;
                if a < kept0.len() {
                    assert(kept0[a]@ == old_s[idx[a]]@);
                    assert(old_s[idx[a]]@.to_set() == s);
                    assert(dnf(old_s).contains(s));
                    assert(!p.subset_of(kept0[a]@.to_set()));
                }
            }
            if target.contains(s) {
                if s == p {
                    assert(kept@[kept0.len() as int]@.to_set() == s);
                } else {
                    let q = choose|q: int| 0 <= q < old_s.len() && #[trigger] old_s[q]@.to_set() == s;
                    let a = choose|a: int| 0 <= a < idx.len() && idx[a] == q;
                    assert(kept@[a]@ == kept0[a]@);
                    assert(kept@[a]@.to_set() == s);
                }
            }
        }
        assert(dnf(kept@) =~= target);
        if anti_vec(old_s) {
            assert forall|a: int, b: int|
                0 <= a < kept@.len() && 0 <= b < kept@.len() && a != b implies !(#[trigger] kept@[a]@.to_set()).subset_of(
                #[trigger] kept@[b]@.to_set(),
            ) by {
                let n = kept0.len() as int;
                if a < n && b < n {
                    assert(kept@[a]@ == old_s[idx[a]]@);
                    assert(kept@[b]@ == old_s[idx[b]]@);
                    assert(idx[a] != idx[b]) by {
                        if a < b { assert(idx[a] < idx[b]); } else { assert(idx[b] < idx[a]); }
                    }
                    assert(!old_s[idx[a]]@.to_set().subset_of(old_s[idx[b]]@.to_set()));
                } else if a == n {
                    assert(kept@[b]@ == kept0[b]@);
                    assert(!p.subset_of(kept0[b]@.to_set()));
                } else {
                    assert(kept@[a]@ == kept0[a]@);
                    assert(kept0[a]@ == old_s[idx[a]]@);
                    assert(!old_s[idx[a]]@.to_set().subset_of(p));
                }
            }
        }
        if all_canonical(old_s) && canonical(proof@) {
            assert forall|a: int| 0 <= a < kept@.len() implies canonical(#[trigger] kept@[a]@) by {
                if a < kept0.len() {
                    assert(kept@[a]@ == old_s[idx[a]]@);
                }
            }
        }
    }
    *set = kept;
    true
}

/// The pairs `(x, y)` before `(i, j)` whose union is a consistent candidate `c`.
spec fn done_pairs(acc: Seq<Vec<i64>>, other: Seq<Vec<i64>>, i: int, j: int) -> Set<Set<i64>> {
    Set::new(|c: Set<i64>| exists|x: int, y: int| #[trigger] pair_cand(acc, other, x, y, c) && (x < i || (x == i && y < j)))
}

spec fn pair_cand(acc: Seq<Vec<i64>>, other: Seq<Vec<i64>>, x: int, y: int, c: Set<i64>) -> bool {
    &&& 0 <= x < acc.len()
    &&& 0 <= y < other.len()
    &&& c == acc[x]@.to_set().union(other[y]@.to_set())
    &&& consistent(c)
}

/// The DNF product `acc ⊗ other`: every consistent pairwise union of a proof of
/// each, kept absorption-minimal. It is true exactly where both factors are.
pub fn product(acc: &ProofSet, other: &ProofSet) -> (out: ProofSet)
    requires
        all_canonical(acc@),
        all_canonical(other@),
    ensures
        all_canonical(out@),
        anti_vec(out@),
        dnf(out@) == product_spec(dnf(acc@), dnf(other@)),
        forall|w: spec_fn(i64) -> bool|
            dnf_holds(w, #[trigger] dnf(out@)) <==> dnf_holds(w, dnf(acc@)) && dnf_holds(w, dnf(other@)),
{
    let mut out: Vec<Vec<i64>> = Vec::new();
    let mut i: usize = 0;
    proof {
        assert(done_pairs(acc@, other@, 0, 0) =~= Set::empty());
        assert(dnf(out@) =~= Set::empty());
    }
    while i < acc.len()
        invariant
            i <= acc@.len(),
            all_canonical(acc@),
            all_canonical(other@),
            all_canonical(out@),
            anti_vec(out@),
            is_min_of(dnf(out@), done_pairs(acc@, other@, i as int, 0)),
        decreases acc@.len() - i,
    {
        let mut j: usize = 0;
        while j < other.len()
            invariant
                i < acc@.len(),
                j <= other@.len(),
                all_canonical(acc@),
                all_canonical(other@),
                all_canonical(out@),
                anti_vec(out@),
                is_min_of(dnf(out@), done_pairs(acc@, other@, i as int, j as int)),
            decreases other@.len() - j,
        {
            assert(canonical(acc@[i as int]@) && canonical(other@[j as int]@));
            let joined = union_lits(&acc[i], &other[j]);
            let ghost c = joined@.to_set();
            let ghost before = dnf(out@);
            if is_consistent(&joined) {
                proof {
                    lemma_min_insert(before, done_pairs(acc@, other@, i as int, j as int), c);
                    assert(pair_cand(acc@, other@, i as int, j as int, c));
                    assert(done_pairs(acc@, other@, i as int, j + 1) =~= done_pairs(acc@, other@, i as int, j as int).insert(c));
                }
                let _ = insert_minimal(&mut out, joined);
                proof {
                    if !covered(before, c) {
                        assert(dnf(out@) =~= Set::new(|k: Set<i64>| before.contains(k) && !c.subset_of(k)).insert(c));
                    }
                }
            } else {
                assert(done_pairs(acc@, other@, i as int, j + 1) =~= done_pairs(acc@, other@, i as int, j as int));
            }
            j = j + 1;
        }
        assert(done_pairs(acc@, other@, i + 1, 0) =~= done_pairs(acc@, other@, i as int, other@.len() as int));
        i = i + 1;
    }
    proof {
        let s = cands(dnf(acc@), dnf(other@));
        assert forall|c: Set<i64>| done_pairs(acc@, other@, acc@.len() as int, 0).contains(c) <==> s.contains(c) by {
            if done_pairs(acc@, other@, acc@.len() as int, 0).contains(c) {
                let (x, y) = choose|x: int, y: int| #[trigger] pair_cand(acc@, other@, x, y, c) && (x < acc@.len() || (x == acc@.len() && y < 0));
                assert(dnf(acc@).contains(acc@[x]@.to_set()));
                assert(dnf(other@).contains(other@[y]@.to_set()));
                assert(joinable(dnf(acc@), dnf(other@), c));
            }
            if s.contains(c) {
                let (xs, ys) = choose|xs: Set<i64>, ys: Set<i64>| dnf(acc@).contains(xs) && dnf(other@).contains(ys) && c == xs.union(ys);
                let x = choose|x: int| 0 <= x < acc@.len() && #[trigger] acc@[x]@.to_set() == xs;
                let y = choose|y: int| 0 <= y < other@.len() && #[trigger] other@[y]@.to_set() == ys;
                assert(pair_cand(acc@, other@, x, y, c));
            }
        }
        assert(done_pairs(acc@, other@, acc@.len() as int, 0) =~= s);
        lemma_min_is_minimal(dnf(out@), s);
        assert forall|w: spec_fn(i64) -> bool|
            dnf_holds(w, #[trigger] dnf(out@)) <==> dnf_holds(w, dnf(acc@)) && dnf_holds(w, dnf(other@)) by {
            lemma_product_meaning(acc@, other@, out@, w);
        }
    }
    out
}

proof fn lemma_singleton_set(x: i64)
    ensures
        seq![x].to_set() == set![x],
{
    assert(seq![x][0] == x);
    assert(seq![x].to_set() =~= set![x]);
}

/// The negation of one proof as a DNF: one single dual literal per literal.
fn negations_of(p: &Proof) -> (r: ProofSet)
    requires
        canonical(p@),
    ensures
        all_canonical(r@),
        dnf(r@) == negations(p@.to_set()),
{
    let mut r: Vec<Vec<i64>> = Vec::new();
    let mut i: usize = 0;
    while i < p.len()
        invariant
            i <= p@.len(),
            canonical(p@),
            r@.len() == i,
            forall|k: int| 0 <= k < i ==> (#[trigger] r@[k])@ == seq![neg(p@[k])],
            forall|k: int| 0 <= k < i ==> lit_ok(neg(#[trigger] p@[k])),
        decreases p@.len() - i,
    {
        assert(lit_ok(p@[i as int]));
        let l = p[i];
        let d = -l;
        r.push(vec![d]);
        i = i + 1;
    }
    proof {
        assert forall|k: int| 0 <= k < r@.len() implies canonical(#[trigger] r@[k]@) by {
            assert(r@[k]@ == seq![neg(p@[k])]);
            assert(lit_ok(neg(p@[k])));
        }
        assert forall|s: Set<i64>| dnf(r@).contains(s) <==> negations(p@.to_set()).contains(s) by {
            if proof_at(r@, s) {
                let k = choose|k: int| 0 <= k < r@.len() && #[trigger] r@[k]@.to_set() == s;
                assert(r@[k]@ == seq![neg(p@[k])]);
                lemma_singleton_set(neg(p@[k]));
                assert(p@.to_set().contains(p@[k]));
            }
            if negations(p@.to_set()).contains(s) {
                let l = choose|l: i64| p@.to_set().contains(l) && s == set![neg(l)];
                let k = choose|k: int| 0 <= k < p@.len() && p@[k] == l;
                assert(r@[k]@ == seq![neg(p@[k])]);
                lemma_singleton_set(neg(p@[k]));
                assert(r@[k]@.to_set() == s);
            }
        }
        assert(dnf(r@) =~= negations(p@.to_set()));
    }
    r
}

/// The complement `¬(p₁ ∨ … ∨ pₙ)` of a proof DNF, as a proof DNF: the product
/// of the negations of the proofs, minimal after each step. `None` when an
/// intermediate product grows past `max_proofs`. The complement is true in
/// exactly the worlds where no proof is.
pub fn complement(proofs: &ProofSet, max_proofs: usize) -> (r: Option<ProofSet>)
    requires
        all_canonical(proofs@),
    ensures
        r is None <==> exists|k: nat|
            1 <= k <= proofs@.len() && (#[trigger] complement_upto(sets_of(proofs@), k)).len() > max_proofs,
        r matches Some(c) ==> all_canonical(c@) && anti_vec(c@)
            && dnf(c@) == complement_upto(sets_of(proofs@), proofs@.len() as nat),
        r matches Some(c) ==> forall|w: spec_fn(i64) -> bool|
            dnf_holds(w, #[trigger] dnf(c@)) <==> !dnf_holds(w, dnf(proofs@)),
{
    let ghost ps = sets_of(proofs@);
    let mut acc: Vec<Vec<i64>> = vec![Vec::new()];
    proof {
        assert(acc@[0]@ =~= Seq::<i64>::empty());
        assert(dnf(acc@) =~= set![Set::<i64>::empty()]) by {
            assert(acc@[0]@.to_set() =~= Set::<i64>::empty());
        }
        assert forall|w: spec_fn(i64) -> bool| dnf_holds(w, #[trigger] dnf(acc@)) by {
            assert(dnf(acc@).contains(Set::<i64>::empty()));
            assert(satisfies(w, Set::<i64>::empty()));
        }
    }
    let mut k: usize = 0;
    while k < proofs.len()
        invariant
            k <= proofs@.len(),
            ps == sets_of(proofs@),
            all_canonical(proofs@),
            all_canonical(acc@),
            anti_vec(acc@),
            dnf(acc@) == complement_upto(ps, k as nat),
            forall|w: spec_fn(i64) -> bool|
                dnf_holds(w, #[trigger] dnf(acc@)) <==> (forall|j: int| 0 <= j < k ==> !satisfies(w, #[trigger] ps[j])),
            forall|q: nat| 1 <= q <= k ==> (#[trigger] complement_upto(ps, q)).len() <= max_proofs,
        decreases proofs@.len() - k,
    {
        assert(canonical(proofs@[k as int]@));
        let negs = negations_of(&proofs[k]);
        let ghost prev = acc@;
        acc = product(&acc, &negs);
        proof {
            assert(ps[k as int] == proofs@[k as int]@.to_set());
            assert(complement_upto(ps, (k + 1) as nat) == product_spec(complement_upto(ps, k as nat), negations(ps[k as int])));
            assert forall|w: spec_fn(i64) -> bool|
                dnf_holds(w, #[trigger] dnf(acc@)) <==> (forall|j: int| 0 <= j < k + 1 ==> !satisfies(w, #[trigger] ps[j])) by {
                lemma_negations_meaning(proofs@[k as int]@, w);
                assert(dnf_holds(w, dnf(prev)) <==> (forall|j: int| 0 <= j < k ==> !satisfies(w, #[trigger] ps[j])));
                if forall|j: int| 0 <= j < k + 1 ==> !satisfies(w, #[trigger] ps[j]) {
                    assert(!satisfies(w, ps[k as int]));
                }
            }
            lemma_dnf_len(acc@);
        }
        if acc.len() > max_proofs {
            assert(complement_upto(ps, (k + 1) as nat).len() > max_proofs);
            return None;
        }
        k = k + 1;
    }
    proof {
        assert forall|w: spec_fn(i64) -> bool|
            dnf_holds(w, #[trigger] dnf(acc@)) <==> !dnf_holds(w, dnf(proofs@)) by {
            if dnf_holds(w, dnf(proofs@)) {
                let s = choose|s: Set<i64>| dnf(proofs@).contains(s) && satisfies(w, s);
                let j = choose|j: int| 0 <= j < proofs@.len() && #[trigger] proofs@[j]@.to_set() == s;
                assert(ps[j] == s);
            }
            if !(forall|j: int| 0 <= j < proofs@.len() ==> !satisfies(w, #[trigger] ps[j])) {
                let j = choose|j: int| 0 <= j < proofs@.len() && satisfies(w, #[trigger] ps[j]);
                assert(dnf(proofs@).contains(proofs@[j]@.to_set()));
            }
        }
    }
    Some(acc)
}

// ---------------------------------------------------------------------------
// The provenance database.

/// The saturated provenance database: predicate → tuple → its proofs.
#[derive(Debug)]
pub struct ProvDb {
    pub rels: Vec<(String, Vec<(Tuple, ProofSet)>)>,
}

/// What a row is: its tuple and its proofs.
pub open spec fn row_view(e: (Tuple, ProofSet)) -> (Seq<i64>, Seq<Seq<i64>>) {
    (e.0@, e.1@.map_values(|p: Vec<i64>| p@))
}

/// `t` has the pattern's length and agrees with it wherever it names a value.
pub open spec fn tuple_matches(t: Seq<i64>, pattern: Seq<Option<i64>>) -> bool {
    &&& t.len() == pattern.len()
    &&& forall|i: int| 0 <= i < t.len() ==> match #[trigger] pattern[i] {
        Some(v) => v == t[i],
        None => true,
    }
}

/// The rows of `rows` whose tuples match `pattern`, in order.
pub open spec fn select(rows: Seq<(Seq<i64>, Seq<Seq<i64>>)>, pattern: Seq<Option<i64>>) -> Seq<(Seq<i64>, Seq<Seq<i64>>)>
    decreases rows.len(),
{
    if rows.len() == 0 {
        rows
    } else {
        let rest = select(rows.drop_last(), pattern);
        if tuple_matches(rows.last().0, pattern) { rest.push(rows.last()) } else { rest }
    }
}

/// `a` sorts before `b` as tuples do: lexicographically, a proper prefix first.
pub open spec fn tuple_lt(a: Seq<i64>, b: Seq<i64>) -> bool {
    exists|i: int| #![trigger a.take(i), b.take(i)]
        0 <= i <= a.len() && i <= b.len() && a.take(i) == b.take(i)
        && ((i == a.len() && i < b.len()) || (i < a.len() && i < b.len() && a[i] < b[i]))
}

/// Rows in strictly ascending tuple order: sorted, each tuple once.
pub open spec fn rows_ascending(rows: Seq<(Seq<i64>, Seq<Seq<i64>>)>) -> bool {
    forall|i: int, j: int| 0 <= i < j < rows.len() ==> tuple_lt(#[trigger] rows[i].0, #[trigger] rows[j].0)
}

/// A proof's literals in strictly ascending order.
pub open spec fn proof_ascending(p: Seq<i64>) -> bool {
    forall|i: int, j: int| 0 <= i < j < p.len() ==> p[i] < p[j]
}

/// The rows of `rows` that `select` keeps are rows of `rows`, and it keeps
/// their order.
proof fn lemma_select_ascending(rows: Seq<(Seq<i64>, Seq<Seq<i64>>)>, pattern: Seq<Option<i64>>)
    requires
        rows_ascending(rows),
    ensures
        rows_ascending(select(rows, pattern)),
        forall|x: int| 0 <= x < select(rows, pattern).len() ==> rows.contains(#[trigger] select(rows, pattern)[x]),
    decreases rows.len(),
{
    if rows.len() > 0 {
        let init = rows.drop_last();
        assert(rows_ascending(init)) by {
            assert forall|i: int, j: int| 0 <= i < j < init.len() implies tuple_lt(#[trigger] init[i].0, #[trigger] init[j].0) by {
                assert(init[i] == rows[i] && init[j] == rows[j]);
            }
        }
        lemma_select_ascending(init, pattern);
        let rest = select(init, pattern);
        assert forall|x: int| 0 <= x < rest.len() implies rows.contains(#[trigger] rest[x]) by {
            let k = choose|k: int| 0 <= k < init.len() && init[k] == rest[x];
            assert(rows[k] == rest[x]);
        }
        if tuple_matches(rows.last().0, pattern) {
            let out = rest.push(rows.last());
            assert(out == select(rows, pattern));
            assert forall|i: int, j: int| 0 <= i < j < out.len() implies tuple_lt(#[trigger] out[i].0, #[trigger] out[j].0) by {
                if j == rest.len() {
                    let k = choose|k: int| 0 <= k < init.len() && init[k] == rest[i];
                    assert(rows[k] == out[i]);
                    assert(out[j] == rows[rows.len() - 1]);
                } else {
                    assert(out[i] == rest[i] && out[j] == rest[j]);
                }
            }
            assert forall|x: int| 0 <= x < out.len() implies rows.contains(#[trigger] out[x]) by {
                if x == rest.len() {
                    assert(out[x] == rows[rows.len() - 1]);
                } else {
                    assert(out[x] == rest[x]);
                }
            }
        }
    }
}

/// Relation `i` is the first one named `pred`.
pub open spec fn first_named(rels: Seq<(String, Vec<(Tuple, ProofSet)>)>, pred: Seq<char>, i: int) -> bool {
    &&& 0 <= i < rels.len()
    &&& rels[i].0@ == pred
    &&& forall|j: int| 0 <= j < i ==> (#[trigger] rels[j]).0@ != pred
}

impl ProvDb {
    /// The shape of the saturated database: one relation per predicate name,
    /// each relation's rows in strictly ascending tuple order (each tuple
    /// once), and each proof's literals strictly ascending.
    pub open spec fn wf(&self) -> bool {
        &&& forall|i: int, j: int| 0 <= i < j < self.rels@.len() ==> (#[trigger] self.rels@[i]).0@ != (#[trigger] self.rels@[j]).0@
        &&& forall|i: int| 0 <= i < self.rels@.len() ==> rows_ascending(
            (#[trigger] self.rels@[i]).1@.map_values(|e: (Tuple, ProofSet)| row_view(e)),
        )
        &&& forall|i: int, k: int, m: int| 0 <= i < self.rels@.len() && 0 <= k < self.rels@[i].1@.len()
            && 0 <= m < self.rels@[i].1@[k].1@.len() ==> proof_ascending(#[trigger] self.rels@[i].1@[k].1@[m]@)
    }

    /// The rows of predicate `pred`, if the database knows it.
    pub fn relation(&self, pred: &str) -> (r: Option<&Vec<(Tuple, ProofSet)>>)
        ensures
            match r {
                None => forall|i: int| 0 <= i < self.rels@.len() ==> (#[trigger] self.rels@[i]).0@ != pred@,
                Some(rows) => exists|i: int| first_named(self.rels@, pred@, i) && *rows == self.rels@[i].1,
            },
    {
        let mut i: usize = 0;
        while i < self.rels.len()
            invariant
                i <= self.rels@.len(),
                forall|j: int| 0 <= j < i ==> (#[trigger] self.rels@[j]).0@ != pred@,
            decreases self.rels@.len() - i,
        {
            if same_text(self.rels[i].0.as_str(), pred) {
                assert(first_named(self.rels@, pred@, i as int));
                return Some(&self.rels[i].1);
            }
            i = i + 1;
        }
        None
    }

    /// The rows of `pred` whose tuples match `pattern` (`None` matches any
    /// value), with their proofs as literal vectors, in the stored order: in
    /// a well-formed database, ascending by tuple with each tuple once, each
    /// proof's literals ascending.
    pub fn query(&self, pred: &str, pattern: &[Option<i64>]) -> (r: Vec<(Tuple, Vec<Vec<i64>>)>)
        ensures
            r@.map_values(|e: (Tuple, ProofSet)| row_view(e)) == match self.relation_spec(pred@) {
                Some(rows) => select(rows@.map_values(|e: (Tuple, ProofSet)| row_view(e)), pattern@),
                None => Seq::empty(),
            },
            self.wf() ==> rows_ascending(r@.map_values(|e: (Tuple, ProofSet)| row_view(e))),
            self.wf() ==> forall|k: int, m: int| 0 <= k < r@.len() && 0 <= m < r@[k].1@.len()
                ==> proof_ascending(#[trigger] r@[k].1@[m]@),
    {
        let mut out: Vec<(Tuple, Vec<Vec<i64>>)> = Vec::new();
        match self.relation(pred) {
            None => {
                proof {
                    assert(self.relation_spec(pred@) is None) by {
                        if exists|i: int| first_named(self.rels@, pred@, i) {
                            let i = choose|i: int| first_named(self.rels@, pred@, i);
                            assert(self.rels@[i].0@ != pred@);
                        }
                    }
                    assert(out@.map_values(|e: (Tuple, ProofSet)| row_view(e)) =~= Seq::empty());
                }
                out
            },
            Some(rows) => {
                let ghost rv = rows@.map_values(|e: (Tuple, ProofSet)| row_view(e));
                proof {
                    let i = choose|i: int| first_named(self.rels@, pred@, i) && *rows == self.rels@[i].1;
                    assert forall|k: int| first_named(self.rels@, pred@, k) implies k == i by {
                        if k < i { assert(self.rels@[k].0@ != pred@); }
                        if i < k { assert(self.rels@[i].0@ != pred@); }
                    }
                    assert(self.relation_spec(pred@) == Some(*rows));
                    assert(out@.map_values(|e: (Tuple, ProofSet)| row_view(e)) =~= select(rv.take(0), pattern@));
                }
                let mut k: usize = 0;
                while k < rows.len()
                    invariant
                        k <= rows@.len(),
                        rv == rows@.map_values(|e: (Tuple, ProofSet)| row_view(e)),
                        out@.map_values(|e: (Tuple, ProofSet)| row_view(e)) == select(rv.take(k as int), pattern@),
                    decreases rows@.len() - k,
                {
                    let t = &rows[k].0;
                    let ok = row_matches(t, pattern);
                    proof {
                        assert(rv.take(k + 1).drop_last() =~= rv.take(k as int));
                        assert(rv.take(k + 1).last() == row_view(rows@[k as int]));
                    }
                    if ok {
                        let tc = copy_lits(t);
                        let ps = copy_proofs(&rows[k].1);
                        let ghost before = out@;
                        out.push((tc, ps));
                        proof {
                            assert(out@.map_values(|e: (Tuple, ProofSet)| row_view(e)) =~= before.map_values(
                                |e: (Tuple, ProofSet)| row_view(e),
                            ).push(row_view(rows@[k as int])));
                        }
                    }
                    k = k + 1;
                }
                proof {
                    assert(rv.take(k as int) =~= rv);
                    let i = choose|i: int| first_named(self.rels@, pred@, i) && *rows == self.rels@[i].1;
                    if self.wf() {
                        assert(rows_ascending(rv));
                        lemma_select_ascending(rv, pattern@);
                        let ov = out@.map_values(|e: (Tuple, ProofSet)| row_view(e));
                        assert forall|k: int, m: int| 0 <= k < out@.len() && 0 <= m < out@[k].1@.len()
                            implies proof_ascending(#[trigger] out@[k].1@[m]@) by {
                            assert(ov[k] == row_view(out@[k]));
                            assert(rv.contains(ov[k]));
                            let x = choose|x: int| 0 <= x < rv.len() && rv[x] == ov[k];
                            assert(rv[x] == row_view(rows@[x]));
                            let ok_ps = out@[k].1@.map_values(|p: Vec<i64>| p@);
                            assert(ov[k].1 == ok_ps);
                            assert(ok_ps[m] == out@[k].1@[m]@);
                            let rx_ps = rows@[x].1@.map_values(|p: Vec<i64>| p@);
                            assert(rv[x].1 == rx_ps);
                            assert(rx_ps.len() == rows@[x].1@.len());
                            assert(rx_ps[m] == rows@[x].1@[m]@);
                            assert(proof_ascending(self.rels@[i].1@[x].1@[m]@));
                        }
                    }
                }
                out
            },
        }
    }

    /// The rows of the first relation named `pred`, if any.
    pub open spec fn relation_spec(&self, pred: Seq<char>) -> Option<Vec<(Tuple, ProofSet)>> {
        if exists|i: int| first_named(self.rels@, pred, i) {
            Some(self.rels@[choose|i: int| first_named(self.rels@, pred, i)].1)
        } else {
            None
        }
    }
}

/// Whether tuple `t` matches `pattern`.
fn row_matches(t: &Tuple, pattern: &[Option<i64>]) -> (r: bool)
    ensures
        r == tuple_matches(t@, pattern@),
{
    if t.len() != pattern.len() {
        return false;
    }
    let mut i: usize = 0;
    while i < t.len()
        invariant
            i <= t@.len(),
            t@.len() == pattern@.len(),
            forall|k: int| 0 <= k < i ==> match #[trigger] pattern@[k] {
                Some(v) => v == t@[k],
                None => true,
            },
        decreases t@.len() - i,
    {
        match pattern[i] {
            Some(v) => {
                if v != t[i] {
                    return false;
                }
            },
            None => {},
        }
        i = i + 1;
    }
    true
}

/// A copy of a proof set.
fn copy_proofs(ps: &ProofSet) -> (r: Vec<Vec<i64>>)
    ensures
        r@.map_values(|p: Vec<i64>| p@) == ps@.map_values(|p: Vec<i64>| p@),
{
    let mut r: Vec<Vec<i64>> = Vec::new();
    let mut i: usize = 0;
    while i < ps.len()
        invariant
            i <= ps@.len(),
            r@.len() == i,
            forall|k: int| 0 <= k < i ==> (#[trigger] r@[k])@ == ps@[k]@,
        decreases ps@.len() - i,
    {
        r.push(copy_lits(&ps[i]));
        i = i + 1;
    }
    assert(r@.map_values(|p: Vec<i64>| p@) =~= ps@.map_values(|p: Vec<i64>| p@));
    r
}

} // verus!
