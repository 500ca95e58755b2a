//! DRed — Delete/Rederive incremental evaluation.
//!
//! A self-contained positive-Datalog engine: EDB facts + rules, least-fixpoint
//! evaluation. Deletion overdeletes the consequences of a removed fact, then
//! rederives those that still have an alternative derivation; the maintained
//! model is always the least model of the current EDB.
use vstd::prelude::*;

verus! {

/// A ground symbol.
pub type Sym = i64;
/// A ground atom: predicate + arguments.
pub type Fact = (String, Vec<Sym>);

/// A term in a rule: a variable (by id) or a constant.
#[derive(Clone, Copy, Debug, PartialEq, Eq)]
pub enum Term {
    Var(u32),
    Const(Sym),
}

/// A rule `head :- body`.
#[derive(Debug)]
pub struct Rule {
    pub head: (String, Vec<Term>),
    pub body: Vec<(String, Vec<Term>)>,
}

/// What a fact is: its predicate's characters and its arguments.
pub type FactV = (Seq<char>, Seq<Sym>);

pub open spec fn fv(f: Fact) -> FactV {
    (f.0@, f.1@)
}

/// The facts held by a vector.
pub open spec fn fset(v: Seq<Fact>) -> Set<FactV> {
    v.map_values(|f: Fact| fv(f)).to_set()
}

/// No fact occurs twice.
pub open spec fn distinct(v: Seq<Fact>) -> bool {
    v.map_values(|f: Fact| fv(f)).no_duplicates()
}

/// The value of a term under the substitution `th`.
pub open spec fn tval(t: Term, th: Map<u32, Sym>) -> Sym {
    match t {
        Term::Const(c) => c,
        Term::Var(v) => th[v],
    }
}

/// The pattern `pat` matches the arguments `args` under `th`.
pub open spec fn matches(pat: Seq<Term>, args: Seq<Sym>, th: Map<u32, Sym>) -> bool {
    &&& pat.len() == args.len()
    &&& forall|j: int| 0 <= j < pat.len() ==> match #[trigger] pat[j] {
        Term::Const(c) => args[j] == c,
        Term::Var(v) => th.contains_key(v) && th[v] == args[j],
    }
}

/// `th` grounds the body of `r` onto the facts `bf` of `s`, one per body atom.
pub open spec fn valid(r: Rule, th: Map<u32, Sym>, bf: Seq<FactV>, s: Set<FactV>) -> bool {
    &&& bf.len() == r.body@.len()
    &&& forall|i: int| 0 <= i < bf.len() ==> s.contains(#[trigger] bf[i]) && bf[i].0 == r.body@[i].0@
        && matches(r.body@[i].1@, bf[i].1, th)
}

/// The head of `r` under `th`.
pub open spec fn head_of(r: Rule, th: Map<u32, Sym>) -> FactV {
    (r.head.0@, r.head.1@.map_values(|t: Term| tval(t, th)))
}

/// Every head variable of `r` occurs in its body.
pub open spec fn range_restricted(r: Rule) -> bool {
    forall|j: int| 0 <= j < r.head.1@.len() ==> (#[trigger] r.head.1@[j] matches Term::Var(v) ==>
        exists|i: int, k: int| 0 <= i < r.body@.len() && 0 <= k < r.body@[i].1@.len() && #[trigger] r.body@[i].1@[k] == Term::Var(v))
}

pub open spec fn all_range_restricted(rules: Seq<Rule>) -> bool {
    forall|k: int| 0 <= k < rules.len() ==> range_restricted(#[trigger] rules[k])
}

/// `s` is closed under the rules: every grounded body in `s` puts its head in `s`.
pub open spec fn tp_closed(rules: Seq<Rule>, s: Set<FactV>) -> bool {
    forall|k: int, th: Map<u32, Sym>, bf: Seq<FactV>| 0 <= k < rules.len() && #[trigger] valid(rules[k], th, bf, s)
        ==> s.contains(head_of(rules[k], th))
}

/// The least set containing `base` and closed under the rules.
pub open spec fn least(base: Set<FactV>, rules: Seq<Rule>) -> Set<FactV> {
    Set::new(|f: FactV| forall|s: Set<FactV>| base.subset_of(s) && #[trigger] tp_closed(rules, s) ==> s.contains(f))
}

/// Exact copy of a fact.
pub fn copy_fact(f: &Fact) -> (c: Fact)
    ensures
        fv(c) == fv(*f),
{
    (f.0.clone(), vstd::slice::slice_to_vec(f.1.as_slice()))
}

/// The same fact.
pub fn same_fact(a: &Fact, b: &Fact) -> (r: bool)
    ensures
        r == (fv(*a) == fv(*b)),
{
    if a.0 != b.0 || a.1.len() != b.1.len() {
        return false;
    }
    let mut i: usize = 0;
    while i < a.1.len()
        invariant
            i <= a.1@.len(),
            a.1@.len() == b.1@.len(),
            forall|k: int| 0 <= k < i ==> a.1@[k] == b.1@[k],
        decreases a.1@.len() - i,
    {
        if a.1[i] != b.1[i] {
            return false;
        }
        i = i + 1;
    }
    assert(a.1@ =~= b.1@);
    true
}

/// Is the fact in the vector?
pub fn has_fact(v: &Vec<Fact>, f: &Fact) -> (r: bool)
    ensures
        r == fset(v@).contains(fv(*f)),
{
    let mut i: usize = 0;
    while i < v.len()
        invariant
            i <= v@.len(),
            forall|k: int| 0 <= k < i ==> fv(v@[k]) != fv(*f),
        decreases v@.len() - i,
    {
        if same_fact(&v[i], f) {
            assert(v@.map_values(|g: Fact| fv(g))[i as int] == fv(*f));
            return true;
        }
        i = i + 1;
    }
    proof {
        let m = v@.map_values(|g: Fact| fv(g));
        if fset(v@).contains(fv(*f)) {
            let k = choose|k: int| 0 <= k < m.len() && m[k] == fv(*f);
            assert(fv(v@[k]) == m[k]);
        }
    }
    false
}

/// Add a fact unless present. Returns whether it was new.
pub fn add_fact(v: &mut Vec<Fact>, f: Fact) -> (added: bool)
    requires
        distinct(old(v)@),
    ensures
        distinct(final(v)@),
        fset(final(v)@) == fset(old(v)@).insert(fv(f)),
        added == !fset(old(v)@).contains(fv(f)),
        !added ==> final(v)@ == old(v)@,
{
    if has_fact(v, &f) {
        assert(fset(v@).insert(fv(f)) =~= fset(v@));
        return false;
    }
    let ghost old_v = v@;
    let ghost x = fv(f);
    v.push(f);
    proof {
        let m0 = old_v.map_values(|g: Fact| fv(g));
        let m1 = v@.map_values(|g: Fact| fv(g));
        assert(m1 =~= m0.push(x));
        crate::math::lemma_push_to_set(m0, x);
        assert forall|i: int, j: int| 0 <= i < m1.len() && 0 <= j < m1.len() && i != j implies m1[i] != m1[j] by {
            if i == m0.len() { assert(m0.contains(m1[j])); }
            if j == m0.len() { assert(m0.contains(m1[i])); }
        }
    }
    true
}


/// A binding list as a substitution (later entries override earlier ones).
pub open spec fn bmap(b: Seq<(u32, Sym)>) -> Map<u32, Sym>
    decreases b.len(),
{
    if b.len() == 0 { Map::empty() } else { bmap(b.drop_last()).insert(b.last().0, b.last().1) }
}

/// No variable is bound twice.
pub open spec fn keys_distinct(b: Seq<(u32, Sym)>) -> bool {
    forall|i: int, j: int| 0 <= i < j < b.len() ==> (#[trigger] b[i]).0 != (#[trigger] b[j]).0
}

proof fn lemma_bmap(b: Seq<(u32, Sym)>)
    requires
        keys_distinct(b),
    ensures
        forall|v: u32| #[trigger] bmap(b).contains_key(v) <==> exists|k: int| 0 <= k < b.len() && b[k].0 == v,
        forall|k: int| 0 <= k < b.len() ==> #[trigger] bmap(b)[b[k].0] == b[k].1,
    decreases b.len(),
{
    if b.len() > 0 {
        let p = b.drop_last();
        lemma_bmap(p);
        assert forall|v: u32| #[trigger] bmap(b).contains_key(v) <==> exists|k: int| 0 <= k < b.len() && b[k].0 == v by {
            if bmap(p).contains_key(v) {
                let k = choose|k: int| 0 <= k < p.len() && p[k].0 == v;
                assert(b[k].0 == v);
            }
            if exists|k: int| 0 <= k < b.len() && b[k].0 == v {
                let k = choose|k: int| 0 <= k < b.len() && b[k].0 == v;
                if k < p.len() { assert(p[k].0 == v); }
            }
        }
        assert forall|k: int| 0 <= k < b.len() implies #[trigger] bmap(b)[b[k].0] == b[k].1 by {
            if k < p.len() {
                assert(p[k] == b[k]);
                assert(b[k].0 != b[b.len() - 1].0);
                assert(bmap(p)[p[k].0] == p[k].1);
                assert(bmap(b) == bmap(p).insert(b.last().0, b.last().1));
            } else {
                assert(bmap(b) == bmap(p).insert(b.last().0, b.last().1));
            }
        }
    }
}

/// A binding list extended by more entries keeps its earlier bindings.
proof fn lemma_bmap_prefix(b: Seq<(u32, Sym)>, n: int)
    requires
        keys_distinct(b),
        0 <= n <= b.len(),
    ensures
        bmap(b.take(n)).submap_of(bmap(b)),
{
    lemma_bmap(b);
    let p = b.take(n);
    assert(keys_distinct(p));
    lemma_bmap(p);
    assert forall|v: u32| #[trigger] bmap(p).contains_key(v) implies bmap(b).contains_key(v) && bmap(b)[v] == bmap(p)[v] by {
        let k = choose|k: int| 0 <= k < p.len() && p[k].0 == v;
        assert(p[k] == b[k]);
        assert(bmap(p)[p[k].0] == p[k].1);
        assert(bmap(b)[b[k].0] == b[k].1);
    }
}

/// The value bound to `v`, if any.
fn lookup(b: &Vec<(u32, Sym)>, v: u32) -> (r: Option<Sym>)
    requires
        keys_distinct(b@),
    ensures
        r matches Some(x) ==> bmap(b@).contains_key(v) && bmap(b@)[v] == x,
        r is None ==> !bmap(b@).contains_key(v),
{
    proof { lemma_bmap(b@); }
    let mut i: usize = 0;
    while i < b.len()
        invariant
            i <= b@.len(),
            keys_distinct(b@),
            forall|k: int| 0 <= k < i ==> b@[k].0 != v,
        decreases b@.len() - i,
    {
        if b[i].0 == v {
            proof { lemma_bmap(b@); }
            assert(bmap(b@)[b@[i as int].0] == b@[i as int].1);
            return Some(b[i].1);
        }
        i = i + 1;
    }
    proof { lemma_bmap(b@); }
    None
}

/// Variables occurring in a pattern are bound by `th`.
pub open spec fn vars_bound(pat: Seq<Term>, th: Map<u32, Sym>) -> bool {
    forall|j: int| 0 <= j < pat.len() ==> (#[trigger] pat[j] matches Term::Var(v) ==> th.contains_key(v))
}

proof fn lemma_matches_mono(pat: Seq<Term>, args: Seq<Sym>, a: Map<u32, Sym>, b: Map<u32, Sym>)
    requires
        matches(pat, args, a),
        a.submap_of(b),
    ensures
        matches(pat, args, b),
{
    assert forall|j: int| 0 <= j < pat.len() implies match #[trigger] pat[j] {
        Term::Const(c) => args[j] == c,
        Term::Var(v) => b.contains_key(v) && b[v] == args[j],
    } by {
        if let Term::Var(v) = pat[j] { assert(a.contains_key(v)); }
    }
}

proof fn lemma_insert_submap(m: Map<u32, Sym>, th: Map<u32, Sym>, v: u32, x: Sym)
    requires
        m.submap_of(th),
        th.contains_key(v),
        th[v] == x,
    ensures
        m.insert(v, x).submap_of(th),
{
    assert forall|w: u32| #[trigger] m.insert(v, x).dom().contains(w) implies #[trigger] th.dom().contains(w) && m.insert(v, x)[w] == th[w] by {
        if w != v {
            assert(m.dom().contains(w));
        }
    }
}

/// Unify a pattern with arguments, extending the binding list.
fn unify(pat: &Vec<Term>, args: &Vec<Sym>, b: &mut Vec<(u32, Sym)>) -> (ok: bool)
    requires
        keys_distinct(old(b)@),
        pat@.len() == args@.len(),
    ensures
        keys_distinct(final(b)@),
        final(b)@.len() >= old(b)@.len(),
        final(b)@.take(old(b)@.len() as int) == old(b)@,
        ok ==> matches(pat@, args@, bmap(final(b)@)),
        ok ==> vars_bound(pat@, bmap(final(b)@)),
        ok ==> forall|th: Map<u32, Sym>| bmap(old(b)@).submap_of(th) && matches(pat@, args@, th) ==> #[trigger] bmap(final(b)@).submap_of(th),
        forall|th: Map<u32, Sym>| #[trigger] bmap(old(b)@).submap_of(th) && matches(pat@, args@, th) ==> ok,
{
    let ghost b0 = b@;
    let mut j: usize = 0;
    while j < pat.len()
        invariant
            j <= pat@.len(),
            pat@.len() == args@.len(),
            b0 == old(b)@,
            keys_distinct(b@),
            b@.len() >= b0.len(),
            b@.take(b0.len() as int) == b0,
            forall|q: int| 0 <= q < j ==> match #[trigger] pat@[q] {
                Term::Const(c) => args@[q] == c,
                Term::Var(v) => bmap(b@).contains_key(v) && bmap(b@)[v] == args@[q],
            },
            forall|th: Map<u32, Sym>| bmap(b0).submap_of(th) && matches(pat@, args@, th) ==> #[trigger] bmap(b@).submap_of(th),
        decreases pat@.len() - j,
    {
        proof { lemma_bmap(b@); }
        match pat[j] {
            Term::Const(c) => {
                if c != args[j] {
                    proof {
                        assert forall|th: Map<u32, Sym>| #[trigger] bmap(b0).submap_of(th) && matches(pat@, args@, th) implies false by {
                            assert(pat@[j as int] == Term::Const(c));
                        }
                    }
                    return false;
                }
            },
            Term::Var(v) => {
                match lookup(b, v) {
                    Some(x) => {
                        if x != args[j] {
                            proof {
                                assert forall|th: Map<u32, Sym>| #[trigger] bmap(b0).submap_of(th) && matches(pat@, args@, th) implies false by {
                                    assert(pat@[j as int] == Term::Var(v));
                                    assert(bmap(b@).submap_of(th));
                                }
                            }
                            return false;
                        }
                    },
                    None => {
                        let ghost bb = b@;
                        b.push((v, args[j]));
                        proof {
                            assert(b@.drop_last() == bb);
                            assert(bmap(b@) == bmap(bb).insert(v, args@[j as int]));
                            assert(keys_distinct(b@)) by {
                                assert forall|x: int, y: int| 0 <= x < y < b@.len() implies (#[trigger] b@[x]).0 != (#[trigger] b@[y]).0 by {
                                    if y == bb.len() {
                                        assert(b@[x] == bb[x]);
                                    }
                                }
                            }
                            assert(b@.take(b0.len() as int) =~= b0) by {
                                assert forall|q: int| 0 <= q < b0.len() implies b@[q] == b0[q] by {
                                    assert(bb.take(b0.len() as int)[q] == b0[q]);
                                }
                            }
                            assert forall|q: int| 0 <= q < j implies match #[trigger] pat@[q] {
                                Term::Const(c) => args@[q] == c,
                                Term::Var(w) => bmap(b@).contains_key(w) && bmap(b@)[w] == args@[q],
                            } by {
                                if let Term::Var(w) = pat@[q] {
                                    assert(bmap(bb).contains_key(w));
                                    assert(w != v);
                                }
                            }
                            assert forall|th: Map<u32, Sym>| bmap(b0).submap_of(th) && matches(pat@, args@, th) implies #[trigger] bmap(b@).submap_of(th) by {
                                assert(bmap(bb).submap_of(th));
                                assert(pat@[j as int] == Term::Var(v));
                                assert(th.contains_key(v) && th[v] == args@[j as int]);
                                lemma_insert_submap(bmap(bb), th, v, args@[j as int]);
                            }
                        }
                    },
                }
            },
        }
        j = j + 1;
    }
    proof {
        assert forall|q: int| 0 <= q < pat@.len() implies (#[trigger] pat@[q] matches Term::Var(v) ==> bmap(b@).contains_key(v)) by {}
    }
    true
}


/// A derivation: a head fact and the body facts it was derived from.
pub type Deriv = (Fact, Vec<Fact>);

pub open spec fn views(v: Seq<Fact>) -> Seq<FactV> {
    v.map_values(|f: Fact| fv(f))
}

pub open spec fn dv(e: Deriv) -> (FactV, Seq<FactV>) {
    (fv(e.0), views(e.1@))
}

/// Every variable of the first `i` body atoms of `r` is bound by `th`.
pub open spec fn body_bound(r: Rule, i: int, th: Map<u32, Sym>) -> bool {
    forall|i2: int| 0 <= i2 < i ==> vars_bound(#[trigger] r.body@[i2].1@, th)
}

/// The facts `bf` ground the first body atoms of `r` under `th`, within `s`.
pub open spec fn prefix_valid(r: Rule, th: Map<u32, Sym>, bf: Seq<FactV>, s: Set<FactV>) -> bool {
    &&& bf.len() <= r.body@.len()
    &&& forall|i: int| 0 <= i < bf.len() ==> s.contains(#[trigger] bf[i]) && bf[i].0 == r.body@[i].0@
        && matches(r.body@[i].1@, bf[i].1, th)
}

/// `e` is a derivation by `r` over `s`.
pub open spec fn derives(r: Rule, e: (FactV, Seq<FactV>), s: Set<FactV>) -> bool {
    exists|th: Map<u32, Sym>| valid(r, th, e.1, s) && e.0 == head_of(r, th)
}

fn copy_facts(v: &Vec<Fact>) -> (c: Vec<Fact>)
    ensures
        views(c@) == views(v@),
{
    let mut c: Vec<Fact> = Vec::new();
    let mut i: usize = 0;
    while i < v.len()
        invariant
            i <= v@.len(),
            views(c@) == views(v@.take(i as int)),
        decreases v@.len() - i,
    {
        let ghost c0 = c@;
        c.push(copy_fact(&v[i]));
        proof {
            assert(views(c@) =~= views(c0).push(fv(v@[i as int])));
            assert(v@.take(i + 1) =~= v@.take(i as int).push(v@[i as int]));
            assert(views(v@.take(i + 1)) =~= views(v@.take(i as int)).push(fv(v@[i as int])));
        }
        i = i + 1;
    }
    assert(v@.take(v@.len() as int) =~= v@);
    c
}

/// Within `r`'s body, the ground heads agree for substitutions that agree on
/// the body variables.
proof fn lemma_head_agrees(r: Rule, a: Map<u32, Sym>, b: Map<u32, Sym>)
    requires
        range_restricted(r),
        body_bound(r, r.body@.len() as int, a),
        a.submap_of(b),
    ensures
        head_of(r, a) == head_of(r, b),
{
    assert forall|j: int| 0 <= j < r.head.1@.len() implies tval(r.head.1@[j], a) == tval(r.head.1@[j], b) by {
        if let Term::Var(v) = r.head.1@[j] {
            assert(r.head.1@[j] matches Term::Var(v));
            let (i, k) = choose|i: int, k: int| 0 <= i < r.body@.len() && 0 <= k < r.body@[i].1@.len() && #[trigger] r.body@[i].1@[k] == Term::Var(v);
            assert(vars_bound(r.body@[i].1@, a));
            assert(r.body@[i].1@[k] matches Term::Var(v));
            assert(a.contains_key(v));
            assert(b.dom().contains(v) && b[v] == a[v]);
        }
    }
    assert(head_of(r, a).1 =~= head_of(r, b).1);
}

/// Enumerate every grounding of `r`'s body atoms from `i` on over `facts`,
/// extending the binding `b` and the body facts `bf`.
fn join(r: &Rule, i: usize, facts: &Vec<Fact>, b: &mut Vec<(u32, Sym)>, bf: &mut Vec<Fact>, out: &mut Vec<Deriv>)
    requires
        i <= r.body@.len(),
        range_restricted(*r),
        keys_distinct(old(b)@),
        old(bf)@.len() == i,
        prefix_valid(*r, bmap(old(b)@), views(old(bf)@), fset(facts@)),
        body_bound(*r, i as int, bmap(old(b)@)),
    ensures
        final(b)@ == old(b)@,
        final(bf)@ == old(bf)@,
        final(out)@.len() >= old(out)@.len(),
        final(out)@.take(old(out)@.len() as int) == old(out)@,
        forall|q: int| old(out)@.len() <= q < final(out)@.len() ==> derives(*r, dv(#[trigger] final(out)@[q]), fset(facts@)),
        forall|th: Map<u32, Sym>, bfs: Seq<FactV>| #[trigger] valid(*r, th, bfs, fset(facts@))
            && bfs.take(i as int) == views(old(bf)@) && bmap(old(b)@).submap_of(th)
            ==> exists|q: int| old(out)@.len() <= q < final(out)@.len() && dv(#[trigger] final(out)@[q]) == (head_of(*r, th), bfs),
    decreases r.body@.len() - i,
{
    let ghost s = fset(facts@);
    let ghost out0 = out@;
    if i == r.body.len() {
        let mut args: Vec<Sym> = Vec::new();
        let mut j: usize = 0;
        proof { lemma_bmap(b@); }
        while j < r.head.1.len()
            invariant
                j <= r.head.1@.len(),
                range_restricted(*r),
                keys_distinct(b@),
                body_bound(*r, r.body@.len() as int, bmap(b@)),
                args@ == r.head.1@.take(j as int).map_values(|t: Term| tval(t, bmap(b@))),
            decreases r.head.1@.len() - j,
        {
            let t = r.head.1[j];
            let x = match t {
                Term::Const(c) => c,
                Term::Var(v) => {
                    proof {
                        let (i2, k) = choose|i2: int, k: int| 0 <= i2 < r.body@.len() && 0 <= k < r.body@[i2].1@.len() && #[trigger] r.body@[i2].1@[k] == Term::Var(v);
                        assert(vars_bound(r.body@[i2].1@, bmap(b@)));
                    }
                    match lookup(b, v) {
                        Some(x) => x,
                        None => 0,
                    }
                },
            };
            let ghost a0 = args@;
            args.push(x);
            proof {
                assert(r.head.1@.take(j + 1) =~= r.head.1@.take(j as int).push(t));
                assert(args@ =~= r.head.1@.take(j + 1).map_values(|t: Term| tval(t, bmap(b@))));
            }
            j = j + 1;
        }
        assert(r.head.1@.take(r.head.1@.len() as int) =~= r.head.1@);
        let head: Fact = (r.head.0.clone(), args);
        let body = copy_facts(bf);
        out.push((head, body));
        proof {
            let th = bmap(b@);
            assert(dv(out@[out0.len() as int]) == (head_of(*r, th), views(bf@)));
            assert(valid(*r, th, views(bf@), s));
            assert(out@.take(out0.len() as int) =~= out0);
            assert forall|th2: Map<u32, Sym>, bfs: Seq<FactV>| #[trigger] valid(*r, th2, bfs, s)
                && bfs.take(i as int) == views(bf@) && bmap(b@).submap_of(th2)
                implies exists|q: int| out0.len() <= q < out@.len() && dv(#[trigger] out@[q]) == (head_of(*r, th2), bfs) by {
                assert(bfs =~= bfs.take(i as int));
                lemma_head_agrees(*r, th, th2);
                assert(dv(out@[out0.len() as int]) == (head_of(*r, th2), bfs));
            }
        }
        return;
    }
    let ghost b0 = b@;
    let ghost bf0 = bf@;
    let _nb = r.body.len();
    let pred = &r.body[i].0;
    let pat = &r.body[i].1;
    let mut idx: usize = 0;
    while idx < facts.len()
        invariant
            i < r.body@.len(),
            r.body@.len() <= usize::MAX,
            *pred == r.body@[i as int].0,
            *pat == r.body@[i as int].1,
            range_restricted(*r),
            s == fset(facts@),
            b@ == b0,
            bf@ == bf0,
            keys_distinct(b0),
            bf0.len() == i,
            prefix_valid(*r, bmap(b0), views(bf0), s),
            body_bound(*r, i as int, bmap(b0)),
            out@.len() >= out0.len(),
            out@.take(out0.len() as int) == out0,
            forall|q: int| out0.len() <= q < out@.len() ==> derives(*r, dv(#[trigger] out@[q]), s),
            forall|th: Map<u32, Sym>, bfs: Seq<FactV>| #[trigger] valid(*r, th, bfs, s)
                && bfs.take(i as int) == views(bf0) && bmap(b0).submap_of(th)
                && (exists|k: int| 0 <= k < idx && fv(#[trigger] facts@[k]) == bfs[i as int])
                ==> exists|q: int| out0.len() <= q < out@.len() && dv(#[trigger] out@[q]) == (head_of(*r, th), bfs),
        decreases facts@.len() - idx,
    {
        let f = &facts[idx];
        let ghost out1 = out@;
        let ghost fvi = fv(*f);
        proof {
            assert(views(facts@)[idx as int] == fvi);
            assert(s.contains(fvi));
        }
        if f.0 == *pred && f.1.len() == pat.len() {
            let len0 = b.len();
            let ok = unify(pat, &f.1, b);
            let ghost b1 = b@;
            if ok {
                proof {
                    lemma_bmap_prefix(b1, b0.len() as int);
                    assert(b1.take(b0.len() as int) == b0);
                    let bfn = views(bf0).push(fvi);
                    assert forall|i2: int| 0 <= i2 < bfn.len() implies s.contains(#[trigger] bfn[i2]) && bfn[i2].0 == r.body@[i2].0@
                        && matches(r.body@[i2].1@, bfn[i2].1, bmap(b1)) by {
                        if i2 < i {
                            assert(bfn[i2] == views(bf0)[i2]);
                            lemma_matches_mono(r.body@[i2].1@, bfn[i2].1, bmap(b0), bmap(b1));
                        }
                    }
                    assert forall|i2: int| 0 <= i2 < i + 1 implies vars_bound(#[trigger] r.body@[i2].1@, bmap(b1)) by {
                        if i2 < i {
                            assert(vars_bound(r.body@[i2].1@, bmap(b0)));
                        }
                    }
                }
                bf.push(copy_fact(f));
                proof { assert(views(bf@) =~= views(bf0).push(fvi)); }
                join(r, i + 1, facts, b, bf, out);
                let _ = bf.pop();
                proof { assert(bf@ =~= bf0); }
            }
            b.truncate(len0);
            proof {
                assert(b@ =~= b0);
                let out2 = out@;
                assert(out2.take(out0.len() as int) =~= out0) by {
                    assert forall|q: int| 0 <= q < out0.len() implies out2[q] == out0[q] by {
                        assert(out2.take(out1.len() as int)[q] == out1[q]);
                        assert(out1.take(out0.len() as int)[q] == out0[q]);
                    }
                }
                assert forall|q: int| out0.len() <= q < out2.len() implies derives(*r, dv(#[trigger] out2[q]), s) by {
                    if q < out1.len() {
                        assert(out2.take(out1.len() as int)[q] == out1[q]);
                    }
                }
                assert forall|th: Map<u32, Sym>, bfs: Seq<FactV>| #[trigger] valid(*r, th, bfs, s)
                    && bfs.take(i as int) == views(bf0) && bmap(b0).submap_of(th)
                    && (exists|k: int| 0 <= k < idx + 1 && fv(#[trigger] facts@[k]) == bfs[i as int])
                    implies exists|q: int| out0.len() <= q < out2.len() && dv(#[trigger] out2[q]) == (head_of(*r, th), bfs) by {
                    if exists|k: int| 0 <= k < idx && fv(#[trigger] facts@[k]) == bfs[i as int] {
                        let q = choose|q: int| out0.len() <= q < out1.len() && dv(#[trigger] out1[q]) == (head_of(*r, th), bfs);
                        assert(out2.take(out1.len() as int)[q] == out1[q]);
                    } else {
                        assert(fvi == bfs[i as int]);
                        assert(matches(r.body@[i as int].1@, bfs[i as int].1, th));
                        assert(ok);
                        assert(bmap(b1).submap_of(th));
                        assert(bfs.take(i + 1) =~= views(bf0).push(fvi));
                    }
                }
            }
        } else {
            proof {
                assert forall|th: Map<u32, Sym>, bfs: Seq<FactV>| #[trigger] valid(*r, th, bfs, s)
                    && bfs.take(i as int) == views(bf0) && bmap(b0).submap_of(th)
                    && (exists|k: int| 0 <= k < idx + 1 && fv(#[trigger] facts@[k]) == bfs[i as int])
                    implies exists|q: int| out0.len() <= q < out@.len() && dv(#[trigger] out@[q]) == (head_of(*r, th), bfs) by {
                    if !(exists|k: int| 0 <= k < idx && fv(#[trigger] facts@[k]) == bfs[i as int]) {
                        assert(fvi == bfs[i as int]);
                        assert(matches(r.body@[i as int].1@, bfs[i as int].1, th));
                    }
                }
            }
        }
        idx = idx + 1;
    }
    proof {
        assert forall|th: Map<u32, Sym>, bfs: Seq<FactV>| #[trigger] valid(*r, th, bfs, s)
            && bfs.take(i as int) == views(bf0) && bmap(b0).submap_of(th)
            implies exists|q: int| out0.len() <= q < out@.len() && dv(#[trigger] out@[q]) == (head_of(*r, th), bfs) by {
            assert(s.contains(bfs[i as int]));
            let k = choose|k: int| 0 <= k < views(facts@).len() && views(facts@)[k] == bfs[i as int];
            assert(fv(facts@[k]) == bfs[i as int]);
        }
    }
}


/// `e` is a derivation by one of the first `n` rules over `s`.
pub open spec fn derived(rules: Seq<Rule>, n: int, e: (FactV, Seq<FactV>), s: Set<FactV>) -> bool {
    exists|k: int| 0 <= k < n && #[trigger] derives(rules[k], e, s)
}

/// All derivations valid over `facts`: each `(head, body)` is one rule
/// grounding whose whole body is present.
fn derivations(rules: &Vec<Rule>, facts: &Vec<Fact>) -> (out: Vec<Deriv>)
    requires
        all_range_restricted(rules@),
    ensures
        forall|q: int| 0 <= q < out@.len() ==> #[trigger] derived(rules@, rules@.len() as int, dv(out@[q]), fset(facts@)),
        forall|k: int, th: Map<u32, Sym>, bfs: Seq<FactV>| 0 <= k < rules@.len() && #[trigger] valid(rules@[k], th, bfs, fset(facts@))
            ==> exists|q: int| 0 <= q < out@.len() && dv(#[trigger] out@[q]) == (head_of(rules@[k], th), bfs),
{
    let mut out: Vec<Deriv> = Vec::new();
    let mut k: usize = 0;
    while k < rules.len()
        invariant
            k <= rules@.len(),
            all_range_restricted(rules@),
            forall|q: int| 0 <= q < out@.len() ==> #[trigger] derived(rules@, k as int, dv(out@[q]), fset(facts@)),
            forall|k2: int, th: Map<u32, Sym>, bfs: Seq<FactV>| 0 <= k2 < k && #[trigger] valid(rules@[k2], th, bfs, fset(facts@))
                ==> exists|q: int| 0 <= q < out@.len() && dv(#[trigger] out@[q]) == (head_of(rules@[k2], th), bfs),
        decreases rules@.len() - k,
    {
        let mut b: Vec<(u32, Sym)> = Vec::new();
        let mut bf: Vec<Fact> = Vec::new();
        let ghost out0 = out@;
        proof {
            assert(bmap(b@) =~= Map::<u32, Sym>::empty());
            assert(views(bf@) =~= Seq::<FactV>::empty());
            assert(range_restricted(rules@[k as int]));
        }
        join(&rules[k], 0, facts, &mut b, &mut bf, &mut out);
        proof {
            assert forall|q: int| 0 <= q < out@.len() implies #[trigger] derived(rules@, k + 1, dv(out@[q]), fset(facts@)) by {
                if q < out0.len() {
                    assert(out@.take(out0.len() as int)[q] == out0[q]);
                    assert(derived(rules@, k as int, dv(out0[q]), fset(facts@)));
                    let k2 = choose|k2: int| 0 <= k2 < k && #[trigger] derives(rules@[k2], dv(out0[q]), fset(facts@));
                } else {
                    assert(derives(rules@[k as int], dv(out@[q]), fset(facts@)));
                }
            }
            assert forall|k2: int, th: Map<u32, Sym>, bfs: Seq<FactV>| 0 <= k2 < k + 1 && #[trigger] valid(rules@[k2], th, bfs, fset(facts@))
                implies exists|q: int| 0 <= q < out@.len() && dv(#[trigger] out@[q]) == (head_of(rules@[k2], th), bfs) by {
                if k2 < k {
                    let q = choose|q: int| 0 <= q < out0.len() && dv(#[trigger] out0[q]) == (head_of(rules@[k2], th), bfs);
                    assert(out@.take(out0.len() as int)[q] == out0[q]);
                } else {
                    assert(bfs.take(0) =~= views(Seq::<Fact>::empty()));
                    assert(Map::<u32, Sym>::empty().submap_of(th));
                }
            }
        }
        k = k + 1;
    }
    out
}


// ---- a finite space of facts, bounding the fixpoint iteration ---------------

/// All arguments of the facts, in order.
pub open spec fn fact_args(fs: Seq<FactV>) -> Seq<Sym>
    decreases fs.len(),
{
    if fs.len() == 0 { Seq::empty() } else { fact_args(fs.drop_last()) + fs.last().1 }
}

/// The constants of a term list.
pub open spec fn term_consts(ts: Seq<Term>) -> Seq<Sym>
    decreases ts.len(),
{
    if ts.len() == 0 { Seq::empty() } else {
        let p = term_consts(ts.drop_last());
        match ts.last() { Term::Const(c) => p.push(c), Term::Var(_) => p }
    }
}

/// The constants of the rule heads.
pub open spec fn head_consts(rules: Seq<Rule>) -> Seq<Sym>
    decreases rules.len(),
{
    if rules.len() == 0 { Seq::empty() } else { head_consts(rules.drop_last()) + term_consts(rules.last().head.1@) }
}

/// Every tuple `t.push(x)` with `t` from `ts` and `x` from `u`.
pub open spec fn extend(ts: Seq<Seq<Sym>>, u: Seq<Sym>) -> Seq<Seq<Sym>>
    decreases u.len(),
{
    if u.len() == 0 { Seq::empty() } else {
        extend(ts, u.drop_last()) + ts.map_values(|t: Seq<Sym>| t.push(u.last()))
    }
}

/// Every tuple of length `n` over `u`.
pub open spec fn tuples(u: Seq<Sym>, n: nat) -> Seq<Seq<Sym>>
    decreases n,
{
    if n == 0 { seq![Seq::<Sym>::empty()] } else { extend(tuples(u, (n - 1) as nat), u) }
}

/// Every fact a rule head could produce with arguments from `u`.
pub open spec fn head_space(rules: Seq<Rule>, u: Seq<Sym>) -> Seq<FactV>
    decreases rules.len(),
{
    if rules.len() == 0 { Seq::empty() } else {
        let r = rules.last();
        head_space(rules.drop_last(), u) + tuples(u, r.head.1@.len()).map_values(|t: Seq<Sym>| (r.head.0@, t))
    }
}

/// `f` has the shape of some rule head and its arguments come from `u`.
pub open spec fn in_space(f: FactV, rules: Seq<Rule>, u: Seq<Sym>) -> bool {
    exists|k: int| 0 <= k < rules.len() && #[trigger] rules[k].head.0@ == f.0 && f.1.len() == rules[k].head.1@.len()
        && forall|i: int| 0 <= i < f.1.len() ==> u.contains(#[trigger] f.1[i])
}

proof fn lemma_fact_args(fs: Seq<FactV>)
    ensures
        forall|j: int, i: int| 0 <= j < fs.len() && 0 <= i < fs[j].1.len() ==> fact_args(fs).contains(#[trigger] fs[j].1[i]),
    decreases fs.len(),
{
    if fs.len() > 0 {
        let p = fs.drop_last();
        lemma_fact_args(p);
        assert forall|j: int, i: int| 0 <= j < fs.len() && 0 <= i < fs[j].1.len() implies fact_args(fs).contains(#[trigger] fs[j].1[i]) by {
            let a = fact_args(p);
            if j < p.len() {
                assert(p[j] == fs[j]);
                assert(a.contains(p[j].1[i]));
                let k = choose|k: int| 0 <= k < a.len() && a[k] == p[j].1[i];
                assert(fact_args(fs)[k] == a[k]);
            } else {
                assert(fact_args(fs)[a.len() + i] == fs.last().1[i]);
            }
        }
    }
}

proof fn lemma_term_consts(ts: Seq<Term>)
    ensures
        forall|j: int| 0 <= j < ts.len() && (#[trigger] ts[j]) is Const ==> term_consts(ts).contains(ts[j]->Const_0),
    decreases ts.len(),
{
    if ts.len() > 0 {
        let p = ts.drop_last();
        lemma_term_consts(p);
        assert forall|j: int| 0 <= j < ts.len() && (#[trigger] ts[j]) is Const implies term_consts(ts).contains(ts[j]->Const_0) by {
            let c = ts[j]->Const_0;
            if j < p.len() {
                assert(p[j] == ts[j]);
                let a = term_consts(p);
                assert(a.contains(c));
                let k = choose|k: int| 0 <= k < a.len() && a[k] == c;
                assert(term_consts(ts)[k] == a[k]);
            } else {
                assert(term_consts(ts) == term_consts(p).push(c));
                assert(term_consts(ts)[term_consts(p).len() as int] == c);
            }
        }
    }
}

proof fn lemma_head_consts(rules: Seq<Rule>)
    ensures
        forall|k: int, j: int| 0 <= k < rules.len() && 0 <= j < rules[k].head.1@.len() && (#[trigger] rules[k].head.1@[j]) is Const
            ==> head_consts(rules).contains(rules[k].head.1@[j]->Const_0),
    decreases rules.len(),
{
    if rules.len() > 0 {
        let p = rules.drop_last();
        lemma_head_consts(p);
        lemma_term_consts(rules.last().head.1@);
        assert forall|k: int, j: int| 0 <= k < rules.len() && 0 <= j < rules[k].head.1@.len() && (#[trigger] rules[k].head.1@[j]) is Const
            implies head_consts(rules).contains(rules[k].head.1@[j]->Const_0) by {
            let c = rules[k].head.1@[j]->Const_0;
            let a = head_consts(p);
            if k < p.len() {
                assert(p[k] == rules[k]);
                assert(p[k].head.1@[j] is Const);
                assert(a.contains(c));
                let q = choose|q: int| 0 <= q < a.len() && a[q] == c;
                assert(head_consts(rules)[q] == a[q]);
            } else {
                let t = term_consts(rules.last().head.1@);
                assert(rules.last().head.1@[j] is Const);
                assert(t.contains(c));
                let q = choose|q: int| 0 <= q < t.len() && t[q] == c;
                assert(head_consts(rules)[a.len() + q] == t[q]);
            }
        }
    }
}

proof fn lemma_extend(ts: Seq<Seq<Sym>>, u: Seq<Sym>, t2: Seq<Sym>)
    ensures
        extend(ts, u).contains(t2) <==> (t2.len() > 0 && ts.contains(t2.drop_last()) && u.contains(t2.last())),
    decreases u.len(),
{
    if u.len() > 0 {
        let p = u.drop_last();
        lemma_extend(ts, p, t2);
        let a = extend(ts, p);
        let b = ts.map_values(|t: Seq<Sym>| t.push(u.last()));
        if extend(ts, u).contains(t2) {
            let k = choose|k: int| 0 <= k < extend(ts, u).len() && extend(ts, u)[k] == t2;
            if k < a.len() {
                assert(a[k] == t2);
                let q = choose|q: int| 0 <= q < p.len() && p[q] == t2.last();
                assert(u[q] == t2.last());
            } else {
                assert(b[k - a.len()] == t2);
                assert(t2.drop_last() =~= ts[k - a.len()]);
                assert(u[u.len() - 1] == t2.last());
            }
        }
        if t2.len() > 0 && ts.contains(t2.drop_last()) && u.contains(t2.last()) {
            let q = choose|q: int| 0 <= q < u.len() && u[q] == t2.last();
            if q < p.len() {
                assert(p[q] == t2.last());
                assert(a.contains(t2));
                let k = choose|k: int| 0 <= k < a.len() && a[k] == t2;
                assert(extend(ts, u)[k] == t2);
            } else {
                let k = choose|k: int| 0 <= k < ts.len() && ts[k] == t2.drop_last();
                assert(b[k] =~= t2);
                assert(extend(ts, u)[a.len() + k] == t2);
            }
        }
    }
}

proof fn lemma_tuples(u: Seq<Sym>, n: nat, t: Seq<Sym>)
    ensures
        tuples(u, n).contains(t) <==> (t.len() == n && forall|i: int| 0 <= i < t.len() ==> u.contains(#[trigger] t[i])),
    decreases n,
{
    if n == 0 {
        if t.len() == 0 { assert(t =~= Seq::<Sym>::empty()); assert(tuples(u, n)[0] == t); }
    } else {
        lemma_extend(tuples(u, (n - 1) as nat), u, t);
        if t.len() > 0 {
            lemma_tuples(u, (n - 1) as nat, t.drop_last());
            assert forall|i: int| 0 <= i < t.drop_last().len() implies t.drop_last()[i] == t[i] by {}
            if forall|i: int| 0 <= i < t.len() ==> u.contains(#[trigger] t[i]) {
                assert(u.contains(t[t.len() - 1]));
            }
        }
    }
}

proof fn lemma_head_space(rules: Seq<Rule>, u: Seq<Sym>, f: FactV)
    ensures
        head_space(rules, u).contains(f) <==> in_space(f, rules, u),
    decreases rules.len(),
{
    if rules.len() > 0 {
        let p = rules.drop_last();
        let r = rules.last();
        lemma_head_space(p, u, f);
        lemma_tuples(u, r.head.1@.len(), f.1);
        let a = head_space(p, u);
        let b = tuples(u, r.head.1@.len()).map_values(|t: Seq<Sym>| (r.head.0@, t));
        if head_space(rules, u).contains(f) {
            let k = choose|k: int| 0 <= k < head_space(rules, u).len() && head_space(rules, u)[k] == f;
            if k < a.len() {
                assert(a[k] == f);
                let q = choose|q: int| 0 <= q < p.len() && #[trigger] p[q].head.0@ == f.0 && f.1.len() == p[q].head.1@.len()
                    && forall|i: int| 0 <= i < f.1.len() ==> u.contains(#[trigger] f.1[i]);
                assert(rules[q] == p[q]);
            } else {
                assert(b[k - a.len()] == f);
                assert(tuples(u, r.head.1@.len()).contains(f.1));
                assert(rules[rules.len() - 1].head.0@ == f.0);
            }
        }
        if in_space(f, rules, u) {
            let q = choose|q: int| 0 <= q < rules.len() && #[trigger] rules[q].head.0@ == f.0 && f.1.len() == rules[q].head.1@.len()
                && forall|i: int| 0 <= i < f.1.len() ==> u.contains(#[trigger] f.1[i]);
            if q < p.len() {
                assert(p[q] == rules[q]);
                assert(p[q].head.0@ == f.0 && f.1.len() == p[q].head.1@.len());
                assert(in_space(f, p, u));
                let k = choose|k: int| 0 <= k < a.len() && a[k] == f;
                assert(head_space(rules, u)[k] == f);
            } else {
                assert(tuples(u, r.head.1@.len()).contains(f.1));
                let k = choose|k: int| 0 <= k < tuples(u, r.head.1@.len()).len() && tuples(u, r.head.1@.len())[k] == f.1;
                assert(b[k] == f);
                assert(head_space(rules, u)[a.len() + k] == f);
            }
        }
    }
}


/// Every argument of every fact of `s` comes from `u`.
pub open spec fn args_in(s: Set<FactV>, u: Seq<Sym>) -> bool {
    forall|f: FactV| #[trigger] s.contains(f) ==> forall|i: int| 0 <= i < f.1.len() ==> u.contains(#[trigger] f.1[i])
}

proof fn lemma_valid_mono(r: Rule, th: Map<u32, Sym>, bf: Seq<FactV>, s1: Set<FactV>, s2: Set<FactV>)
    requires
        valid(r, th, bf, s1),
        s1.subset_of(s2),
    ensures
        valid(r, th, bf, s2),
{
}

/// The least closed superset is closed and holds the base.
proof fn lemma_least_closed(base: Set<FactV>, rules: Seq<Rule>)
    ensures
        base.subset_of(least(base, rules)),
        tp_closed(rules, least(base, rules)),
{
    let l = least(base, rules);
    assert forall|k: int, th: Map<u32, Sym>, bf: Seq<FactV>| 0 <= k < rules.len() && #[trigger] valid(rules[k], th, bf, l)
        implies l.contains(head_of(rules[k], th)) by {
        assert forall|s: Set<FactV>| base.subset_of(s) && #[trigger] tp_closed(rules, s) implies s.contains(head_of(rules[k], th)) by {
            assert(l.subset_of(s));
            lemma_valid_mono(rules[k], th, bf, l, s);
        }
    }
}

/// The head of a grounding over facts with arguments from `u` has the shape
/// of a rule head and arguments from `u`, once `u` holds the head constants.
proof fn lemma_head_in_space(rules: Seq<Rule>, k: int, th: Map<u32, Sym>, bf: Seq<FactV>, s: Set<FactV>, u: Seq<Sym>)
    requires
        0 <= k < rules.len(),
        valid(rules[k], th, bf, s),
        args_in(s, u),
        all_range_restricted(rules),
        forall|x: Sym| head_consts(rules).contains(x) ==> u.contains(x),
    ensures
        in_space(head_of(rules[k], th), rules, u),
        forall|i: int| 0 <= i < head_of(rules[k], th).1.len() ==> u.contains(#[trigger] head_of(rules[k], th).1[i]),
{
    let r = rules[k];
    let hf = head_of(r, th);
    lemma_head_consts(rules);
    assert(range_restricted(r));
    assert forall|i: int| 0 <= i < hf.1.len() implies u.contains(#[trigger] hf.1[i]) by {
        match r.head.1@[i] {
            Term::Const(c) => {
                assert(rules[k].head.1@[i] is Const);
                assert(head_consts(rules).contains(c));
            },
            Term::Var(v) => {
                assert(r.head.1@[i] matches Term::Var(v));
                let (i2, k2) = choose|i2: int, k2: int| 0 <= i2 < r.body@.len() && 0 <= k2 < r.body@[i2].1@.len() && #[trigger] r.body@[i2].1@[k2] == Term::Var(v);
                assert(s.contains(bf[i2]));
                assert(matches(r.body@[i2].1@, bf[i2].1, th));
                assert(r.body@[i2].1@[k2] == Term::Var(v));
                assert(th[v] == bf[i2].1[k2]);
                assert(u.contains(bf[i2].1[k2]));
            },
        }
    }
    assert(rules[k].head.0@ == hf.0);
}

proof fn lemma_u_covers(model: Seq<Fact>, rules: Seq<Rule>, u: Seq<Sym>)
    requires
        u == fact_args(views(model)) + head_consts(rules),
    ensures
        args_in(fset(model), u),
        forall|x: Sym| head_consts(rules).contains(x) ==> u.contains(x),
{
    let fs = views(model);
    lemma_fact_args(fs);
    assert forall|f: FactV| #[trigger] fset(model).contains(f) implies forall|i: int| 0 <= i < f.1.len() ==> u.contains(#[trigger] f.1[i]) by {
        let j = choose|j: int| 0 <= j < fs.len() && fs[j] == f;
        assert forall|i: int| 0 <= i < f.1.len() implies u.contains(#[trigger] f.1[i]) by {
            assert(fact_args(fs).contains(fs[j].1[i]));
            let q = choose|q: int| 0 <= q < fact_args(fs).len() && fact_args(fs)[q] == f.1[i];
            assert(u[q] == f.1[i]);
        }
    }
    assert forall|x: Sym| head_consts(rules).contains(x) implies u.contains(x) by {
        let q = choose|q: int| 0 <= q < head_consts(rules).len() && head_consts(rules)[q] == x;
        assert(u[fact_args(fs).len() + q] == x);
    }
}

/// Add the heads of derivations until nothing new appears: the least
/// closed superset of the starting facts.
fn saturate(model: &mut Vec<Fact>, rules: &Vec<Rule>)
    requires
        distinct(old(model)@),
        all_range_restricted(rules@),
    ensures
        distinct(final(model)@),
        fset(final(model)@) == least(fset(old(model)@), rules@),
{
    broadcast use vstd::set::group_set_axioms;
    broadcast use vstd::seq_lib::seq_to_set_is_finite;
    let ghost s0 = fset(model@);
    let ghost u = fact_args(views(model@)) + head_consts(rules@);
    let ghost h = s0.union(head_space(rules@, u).to_set());
    proof {
        lemma_u_covers(model@, rules@, u);
        lemma_least_closed(s0, rules@);
    }
    loop
        invariant
            distinct(model@),
            all_range_restricted(rules@),
            s0 == fset(old(model)@),
            h.finite(),
            h == s0.union(head_space(rules@, u).to_set()),
            forall|x: Sym| head_consts(rules@).contains(x) ==> u.contains(x),
            s0.subset_of(fset(model@)),
            fset(model@).subset_of(least(s0, rules@)),
            fset(model@).subset_of(h),
            args_in(fset(model@), u),
            tp_closed(rules@, least(s0, rules@)),
        decreases h.len() - fset(model@).len(),
    {
        let derivs = derivations(rules, model);
        let ghost start = model@;
        let mut changed = false;
        let mut q: usize = 0;
        while q < derivs.len()
            invariant
                q <= derivs@.len(),
                distinct(model@),
                all_range_restricted(rules@),
                h.finite(),
                h == s0.union(head_space(rules@, u).to_set()),
                forall|x: Sym| head_consts(rules@).contains(x) ==> u.contains(x),
                forall|q2: int| 0 <= q2 < derivs@.len() ==> #[trigger] derived(rules@, rules@.len() as int, dv(derivs@[q2]), fset(start)),
                s0.subset_of(fset(start)),
                fset(start).subset_of(fset(model@)),
                fset(model@).subset_of(least(s0, rules@)),
                fset(model@).subset_of(h),
                args_in(fset(start), u),
                args_in(fset(model@), u),
                tp_closed(rules@, least(s0, rules@)),
                fset(start).subset_of(least(s0, rules@)),
                !changed ==> model@ == start,
                changed ==> fset(model@).len() > fset(start).len(),
                fset(start).finite(),
                !changed ==> forall|q2: int| 0 <= q2 < q ==> fset(model@).contains(fv((#[trigger] derivs@[q2]).0)),
            decreases derivs@.len() - q,
        {
            let ghost d = dv(derivs@[q as int]);
            proof {
                assert(derived(rules@, rules@.len() as int, d, fset(start)));
                let k = choose|k: int| 0 <= k < rules@.len() && #[trigger] derives(rules@[k], d, fset(start));
                let th = choose|th: Map<u32, Sym>| valid(rules@[k], th, d.1, fset(start)) && d.0 == head_of(rules@[k], th);
                lemma_head_in_space(rules@, k, th, d.1, fset(start), u);
                lemma_head_space(rules@, u, d.0);
                lemma_valid_mono(rules@[k], th, d.1, fset(start), least(s0, rules@));
            }
            let hf = copy_fact(&derivs[q].0);
            let ghost before = fset(model@);
            let added = add_fact(model, hf);
            if added {
                changed = true;
            }
            proof {
                assert(fset(model@) == before.insert(d.0));
                assert forall|f: FactV| #[trigger] fset(model@).contains(f) implies forall|i: int| 0 <= i < f.1.len() ==> u.contains(#[trigger] f.1[i]) by {
                    if f != d.0 { assert(before.contains(f)); }
                }
                if added {
                    vstd::set_lib::lemma_len_subset(fset(start), before);
                }
            }
            q = q + 1;
        }
        if !changed {
            proof {
                assert forall|k: int, th: Map<u32, Sym>, bf: Seq<FactV>| 0 <= k < rules@.len() && #[trigger] valid(rules@[k], th, bf, fset(model@))
                    implies fset(model@).contains(head_of(rules@[k], th)) by {
                    let q2 = choose|q2: int| 0 <= q2 < derivs@.len() && dv(#[trigger] derivs@[q2]) == (head_of(rules@[k], th), bf);
                    assert(fset(model@).contains(fv(derivs@[q2].0)));
                }
                assert(tp_closed(rules@, fset(model@)));
                assert forall|f: FactV| least(s0, rules@).contains(f) implies fset(model@).contains(f) by {
                    assert(s0.subset_of(fset(model@)) && tp_closed(rules@, fset(model@)));
                }
                assert(fset(model@) =~= least(s0, rules@));
            }
            return;
        }
        proof {
            vstd::set_lib::lemma_len_subset(fset(model@), h);
        }
    }
}


/// A smaller base has a smaller least model.
proof fn lemma_least_mono(b1: Set<FactV>, b2: Set<FactV>, rules: Seq<Rule>)
    requires
        b1.subset_of(least(b2, rules)),
    ensures
        least(b1, rules).subset_of(least(b2, rules)),
{
    lemma_least_closed(b2, rules);
    assert forall|f: FactV| least(b1, rules).contains(f) implies least(b2, rules).contains(f) by {
        assert(b1.subset_of(least(b2, rules)) && tp_closed(rules, least(b2, rules)));
    }
}

/// The facts of `v`, without repeats.
fn dedup_facts(v: &[Fact]) -> (r: Vec<Fact>)
    ensures
        distinct(r@),
        fset(r@) == fset(v@),
{
    let mut r: Vec<Fact> = Vec::new();
    let mut i: usize = 0;
    assert(fset(r@) =~= fset(v@.take(0)));
    while i < v.len()
        invariant
            i <= v@.len(),
            distinct(r@),
            fset(r@) == fset(v@.take(i as int)),
        decreases v@.len() - i,
    {
        let _ = add_fact(&mut r, copy_fact(&v[i]));
        proof {
            assert(v@.take(i + 1) =~= v@.take(i as int).push(v@[i as int]));
            assert(views(v@.take(i + 1)) =~= views(v@.take(i as int)).push(fv(v@[i as int])));
            crate::math::lemma_push_to_set(views(v@.take(i as int)), fv(v@[i as int]));
        }
        i = i + 1;
    }
    assert(v@.take(v@.len() as int) =~= v@);
    r
}

/// Remove a fact.
fn remove_fact(v: &mut Vec<Fact>, f: &Fact)
    requires
        distinct(old(v)@),
    ensures
        distinct(final(v)@),
        fset(final(v)@) == fset(old(v)@).remove(fv(*f)),
{
    let ghost v0 = v@;
    let mut out: Vec<Fact> = Vec::new();
    let mut i: usize = 0;
    while i < v.len()
        invariant
            i <= v@.len(),
            v@ == v0,
            distinct(v0),
            distinct(out@),
            fset(out@) == fset(v0.take(i as int)).remove(fv(*f)),
        decreases v@.len() - i,
    {
        if !same_fact(&v[i], f) {
            let _ = add_fact(&mut out, copy_fact(&v[i]));
        }
        proof {
            assert(v0.take(i + 1) =~= v0.take(i as int).push(v0[i as int]));
            assert(views(v0.take(i + 1)) =~= views(v0.take(i as int)).push(fv(v0[i as int])));
            crate::math::lemma_push_to_set(views(v0.take(i as int)), fv(v0[i as int]));
            assert(fset(out@) =~= fset(v0.take(i + 1)).remove(fv(*f)));
        }
        i = i + 1;
    }
    assert(v0.take(v0.len() as int) =~= v0);
    *v = out;
}

/// Least fixpoint: the EDB plus everything derivable.
pub fn eval(edb: &Vec<Fact>, rules: &Vec<Rule>) -> (m: Vec<Fact>)
    requires
        all_range_restricted(rules@),
    ensures
        distinct(m@),
        fset(m@) == least(fset(edb@), rules@),
{
    let mut m = dedup_facts(edb.as_slice());
    saturate(&mut m, rules);
    m
}

/// An incrementally-maintained materialization.
pub struct Dred {
    pub edb: Vec<Fact>,
    pub rules: Vec<Rule>,
    pub model: Vec<Fact>,
}

impl Dred {
    /// The model is the least model of the EDB under the rules.
    pub open spec fn wf(&self) -> bool {
        &&& distinct(self.edb@)
        &&& distinct(self.model@)
        &&& all_range_restricted(self.rules@)
        &&& fset(self.model@) == least(fset(self.edb@), self.rules@)
    }

    /// Materialize `edb` under `rules`.
    pub fn new(edb: Vec<Fact>, rules: Vec<Rule>) -> (d: Self)
        requires
            all_range_restricted(rules@),
        ensures
            d.wf(),
            fset(d.edb@) == fset(edb@),
            d.rules@ == rules@,
    {
        let e = dedup_facts(edb.as_slice());
        let model = eval(&e, &rules);
        Dred { edb: e, rules, model }
    }

    /// Insert EDB facts and extend the model.
    pub fn insert(&mut self, add: &[Fact])
        requires
            old(self).wf(),
        ensures
            final(self).wf(),
            fset(final(self).edb@) == fset(old(self).edb@).union(fset(add@)),
            final(self).rules@ == old(self).rules@,
    {
        let ghost e0 = fset(self.edb@);
        let ghost m0 = fset(self.model@);
        let mut i: usize = 0;
        while i < add.len()
            invariant
                i <= add@.len(),
                distinct(self.edb@),
                distinct(self.model@),
                all_range_restricted(self.rules@),
                self.rules@ == old(self).rules@,
                e0 == fset(old(self).edb@),
                m0 == fset(old(self).model@),
                fset(self.edb@) == e0.union(fset(add@.take(i as int))),
                fset(self.model@) == m0.union(fset(add@.take(i as int))),
            decreases add@.len() - i,
        {
            let _ = add_fact(&mut self.edb, copy_fact(&add[i]));
            let _ = add_fact(&mut self.model, copy_fact(&add[i]));
            proof {
                assert(add@.take(i + 1) =~= add@.take(i as int).push(add@[i as int]));
                assert(views(add@.take(i + 1)) =~= views(add@.take(i as int)).push(fv(add@[i as int])));
                crate::math::lemma_push_to_set(views(add@.take(i as int)), fv(add@[i as int]));
                assert(fset(self.edb@) =~= e0.union(fset(add@.take(i + 1))));
                assert(fset(self.model@) =~= m0.union(fset(add@.take(i + 1))));
            }
            i = i + 1;
        }
        assert(add@.take(add@.len() as int) =~= add@);
        saturate(&mut self.model, &self.rules);
        proof {
            let a = fset(add@);
            let e1 = e0.union(a);
            let r = self.rules@;
            lemma_least_closed(e0, r);
            lemma_least_closed(e1, r);
            lemma_least_mono(e0, e1, r);
            lemma_least_mono(m0.union(a), e1, r);
            lemma_least_closed(m0.union(a), r);
            lemma_least_mono(e1, m0.union(a), r);
            assert(fset(self.model@) =~= least(e1, r));
        }
    }
}


/// Some fact of `body` is in `s`.
fn any_in(body: &Vec<Fact>, s: &Vec<Fact>) -> (r: bool)
    ensures
        r == exists|i: int| 0 <= i < body@.len() && fset(s@).contains(#[trigger] views(body@)[i]),
{
    let mut i: usize = 0;
    while i < body.len()
        invariant
            i <= body@.len(),
            forall|k: int| 0 <= k < i ==> !fset(s@).contains(#[trigger] views(body@)[k]),
        decreases body@.len() - i,
    {
        if has_fact(s, &body[i]) {
            assert(views(body@)[i as int] == fv(body@[i as int]));
            return true;
        }
        assert(views(body@)[i as int] == fv(body@[i as int]));
        i = i + 1;
    }
    false
}

/// Every derivation over the old model that uses an overdeleted fact has an
/// overdeleted head.
pub open spec fn cascade_closed(ds: Seq<Deriv>, o: Set<FactV>) -> bool {
    forall|q: int| 0 <= q < ds.len() && (exists|i: int| 0 <= i < dv(ds[q]).1.len() && o.contains(#[trigger] dv(ds[q]).1[i]))
        ==> o.contains(#[trigger] dv(ds[q]).0)
}

/// Overdeletion leaves out nothing the remaining EDB still supports: the old
/// model lies within the new least model and the overdeleted facts.
proof fn lemma_overdeletion(rules: Seq<Rule>, e: Set<FactV>, d: Set<FactV>, o: Set<FactV>, ds: Seq<Deriv>)
    requires
        d.subset_of(o),
        cascade_closed(ds, o),
        forall|k: int, th: Map<u32, Sym>, bfs: Seq<FactV>| 0 <= k < rules.len() && #[trigger] valid(rules[k], th, bfs, least(e, rules))
            ==> exists|q: int| 0 <= q < ds.len() && dv(#[trigger] ds[q]) == (head_of(rules[k], th), bfs),
    ensures
        least(e, rules).subset_of(least(e.difference(d), rules).union(o)),
{
    let m = least(e, rules);
    let m2 = least(e.difference(d), rules);
    lemma_least_closed(e, rules);
    lemma_least_closed(e.difference(d), rules);
    let z = m2.union(o).intersect(m);
    assert(e.subset_of(z));
    assert(tp_closed(rules, z)) by {
        assert forall|k: int, th: Map<u32, Sym>, bf: Seq<FactV>| 0 <= k < rules.len() && #[trigger] valid(rules[k], th, bf, z)
            implies z.contains(head_of(rules[k], th)) by {
            lemma_valid_mono(rules[k], th, bf, z, m);
            let q = choose|q: int| 0 <= q < ds.len() && dv(#[trigger] ds[q]) == (head_of(rules[k], th), bf);
            if exists|i: int| 0 <= i < dv(ds[q]).1.len() && o.contains(#[trigger] dv(ds[q]).1[i]) {
                assert(o.contains(dv(ds[q]).0));
            } else {
                assert forall|i: int| 0 <= i < bf.len() implies m2.contains(#[trigger] bf[i]) by {
                    assert(z.contains(bf[i]));
                    assert(!o.contains(dv(ds[q]).1[i]));
                }
                assert(valid(rules[k], th, bf, m2));
            }
        }
    }
    assert forall|f: FactV| m.contains(f) implies m2.union(o).contains(f) by {
        assert(e.subset_of(z) && tp_closed(rules, z));
    }
}

impl Dred {
    /// Delete EDB facts and repair the model by DRed: overdelete the cascade,
    /// then rederive whatever still has support. The result is the least
    /// model of the remaining EDB.
    pub fn delete(&mut self, del: &[Fact])
        requires
            old(self).wf(),
        ensures
            final(self).wf(),
            fset(final(self).edb@) == fset(old(self).edb@).difference(fset(del@)),
            final(self).rules@ == old(self).rules@,
    {
        broadcast use vstd::set::group_set_axioms;
        broadcast use vstd::seq_lib::seq_to_set_is_finite;
        let ghost e0 = fset(self.edb@);
        let ghost m0 = fset(self.model@);
        let ghost dset = fset(del@);
        let mut i: usize = 0;
        while i < del.len()
            invariant
                i <= del@.len(),
                distinct(self.edb@),
                distinct(self.model@),
                all_range_restricted(self.rules@),
                self.rules@ == old(self).rules@,
                e0 == fset(old(self).edb@),
                m0 == fset(old(self).model@),
                m0 == least(e0, self.rules@),
                fset(self.model@) == m0,
                fset(self.edb@) == e0.difference(fset(del@.take(i as int))),
            decreases del@.len() - i,
        {
            remove_fact(&mut self.edb, &del[i]);
            proof {
                assert(del@.take(i + 1) =~= del@.take(i as int).push(del@[i as int]));
                assert(views(del@.take(i + 1)) =~= views(del@.take(i as int)).push(fv(del@[i as int])));
                crate::math::lemma_push_to_set(views(del@.take(i as int)), fv(del@[i as int]));
                assert(fset(self.edb@) =~= e0.difference(fset(del@.take(i + 1))));
            }
            i = i + 1;
        }
        assert(del@.take(del@.len() as int) =~= del@);
        let ghost e1 = fset(self.edb@);
        let derivs = derivations(&self.rules, &self.model);
        let ghost heads = derivs@.map_values(|e: Deriv| fv(e.0)).to_set();
        let ghost dom = dset.union(heads);
        let mut overdel = dedup_facts(del);
        loop
            invariant
                distinct(overdel@),
                dom.finite(),
                dom == dset.union(heads),
                heads == derivs@.map_values(|e: Deriv| fv(e.0)).to_set(),
                dset.subset_of(fset(overdel@)),
                fset(overdel@).subset_of(dom),
            ensures
                distinct(overdel@),
                dset.subset_of(fset(overdel@)),
                cascade_closed(derivs@, fset(overdel@)),
            decreases dom.len() - fset(overdel@).len(),
        {
            let ghost start = overdel@;
            let mut changed = false;
            let mut q: usize = 0;
            while q < derivs.len()
                invariant
                    q <= derivs@.len(),
                    distinct(overdel@),
                    dom.finite(),
                    dom == dset.union(heads),
                    heads == derivs@.map_values(|e: Deriv| fv(e.0)).to_set(),
                    dset.subset_of(fset(start)),
                    fset(start).subset_of(fset(overdel@)),
                    fset(overdel@).subset_of(dom),
                    !changed ==> overdel@ == start,
                    changed ==> fset(overdel@).len() > fset(start).len(),
                    fset(start).finite(),
                    !changed ==> forall|q2: int| 0 <= q2 < q && (exists|i2: int| 0 <= i2 < dv(derivs@[q2]).1.len() && fset(overdel@).contains(#[trigger] dv(derivs@[q2]).1[i2]))
                        ==> fset(overdel@).contains(#[trigger] dv(derivs@[q2]).0),
                decreases derivs@.len() - q,
            {
                let h = &derivs[q].0;
                let body = &derivs[q].1;
                proof {
                    assert(derivs@.map_values(|e: Deriv| fv(e.0))[q as int] == fv(*h));
                    assert(heads.contains(fv(*h)));
                }
                if !has_fact(&overdel, h) && any_in(body, &overdel) {
                    let ghost before = fset(overdel@);
                    let _ = add_fact(&mut overdel, copy_fact(h));
                    changed = true;
                    proof { vstd::set_lib::lemma_len_subset(fset(start), before); }
                }
                q = q + 1;
            }
            if !changed {
                proof {
                    assert forall|q2: int| 0 <= q2 < derivs@.len() && (exists|i2: int| 0 <= i2 < dv(derivs@[q2]).1.len() && fset(overdel@).contains(#[trigger] dv(derivs@[q2]).1[i2]))
                        implies fset(overdel@).contains(#[trigger] dv(derivs@[q2]).0) by {}
                }
                break;
            }
            proof { vstd::set_lib::lemma_len_subset(fset(overdel@), dom); }
        }
        let ghost o = fset(overdel@);
        let mut survived: Vec<Fact> = Vec::new();
        let ghost keep = Set::new(|f: FactV| m0.contains(f) && (!o.contains(f) || e1.contains(f)));
        let mut k: usize = 0;
        assert(fset(survived@) =~= Set::new(|f: FactV| keep.contains(f) && fset(self.model@.take(0)).contains(f)));
        while k < self.model.len()
            invariant
                k <= self.model@.len(),
                fset(self.model@) == m0,
                fset(overdel@) == o,
                fset(self.edb@) == e1,
                keep == Set::new(|f: FactV| m0.contains(f) && (!o.contains(f) || e1.contains(f))),
                distinct(survived@),
                fset(survived@) == Set::new(|f: FactV| keep.contains(f) && fset(self.model@.take(k as int)).contains(f)),
            decreases self.model@.len() - k,
        {
            let f = &self.model[k];
            proof {
                assert(views(self.model@)[k as int] == fv(*f));
                assert(m0.contains(fv(*f)));
                assert(self.model@.take(k + 1) =~= self.model@.take(k as int).push(*f));
                assert(views(self.model@.take(k + 1)) =~= views(self.model@.take(k as int)).push(fv(*f)));
                crate::math::lemma_push_to_set(views(self.model@.take(k as int)), fv(*f));
            }
            if !has_fact(&overdel, f) || has_fact(&self.edb, f) {
                let _ = add_fact(&mut survived, copy_fact(f));
            }
            proof {
                assert(fset(survived@) =~= Set::new(|g: FactV| keep.contains(g) && fset(self.model@.take(k + 1)).contains(g)));
            }
            k = k + 1;
        }
        assert(self.model@.take(self.model@.len() as int) =~= self.model@);
        assert(fset(survived@) =~= keep);
        let mut k: usize = 0;
        while k < self.edb.len()
            invariant
                k <= self.edb@.len(),
                fset(self.edb@) == e1,
                distinct(survived@),
                fset(survived@) == keep.union(fset(self.edb@.take(k as int))),
            decreases self.edb@.len() - k,
        {
            let _ = add_fact(&mut survived, copy_fact(&self.edb[k]));
            proof {
                assert(self.edb@.take(k + 1) =~= self.edb@.take(k as int).push(self.edb@[k as int]));
                assert(views(self.edb@.take(k + 1)) =~= views(self.edb@.take(k as int)).push(fv(self.edb@[k as int])));
                crate::math::lemma_push_to_set(views(self.edb@.take(k as int)), fv(self.edb@[k as int]));
                assert(fset(survived@) =~= keep.union(fset(self.edb@.take(k + 1))));
            }
            k = k + 1;
        }
        assert(self.edb@.take(self.edb@.len() as int) =~= self.edb@);
        let ghost sv = fset(survived@);
        saturate(&mut survived, &self.rules);
        proof {
            let r = self.rules@;
            assert(e1 == e0.difference(dset));
            lemma_overdeletion(r, e0, dset, o, derivs@);
            let m2 = least(e1, r);
            lemma_least_closed(e1, r);
            assert(sv.subset_of(m2)) by {
                assert forall|f: FactV| sv.contains(f) implies m2.contains(f) by {
                    if keep.contains(f) && !e1.contains(f) {
                        assert(m0.contains(f) && !o.contains(f));
                        assert(m2.union(o).contains(f));
                    }
                }
            }
            lemma_least_mono(sv, e1, r);
            lemma_least_closed(sv, r);
            lemma_least_mono(e1, sv, r);
            assert(fset(survived@) =~= m2);
        }
        self.model = survived;
    }
}

/// Inserting facts the EDB does not hold and then deleting them again gives
/// back the EDB, and so the model, that was there before.
pub proof fn lemma_insert_delete_roundtrip(edb: Set<FactV>, add: Set<FactV>, rules: Seq<Rule>)
    requires
        edb.disjoint(add),
    ensures
        edb.union(add).difference(add) == edb,
        least(edb.union(add).difference(add), rules) == least(edb, rules),
{
    assert(edb.union(add).difference(add) =~= edb);
}

} // verus!
