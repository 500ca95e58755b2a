//! Unfounded-set verification: a candidate set `S` (its atoms true, the rest
//! false) is an answer set iff it is a classical model and has no non-empty
//! unfounded subset — every atom of `S` has external support from a rule that
//! is active under `S` and whose positive body is itself founded.
use vstd::prelude::*;
use std::collections::BTreeSet;
use crate::asp::{GRule, Ground, active, closed, lm, neg_out, pos_in, stable, constraints_hold};
use crate::asp::{answer_list, ground_wf, lists_stable, model_atoms};
use crate::asp::order::{av, mv, mvs, AtomView};
use crate::asp::GroundAtom;

verus! {

broadcast use {vstd::laws_cmp::group_laws_cmp, vstd::std_specs::btree::group_btree_axioms};

/// Rules whose head is not yet in `f`.
pub open spec fn unfounded_heads(rules: Seq<GRule>, f: Set<usize>) -> nat
    decreases rules.len(),
{
    if rules.len() == 0 {
        0
    } else {
        unfounded_heads(rules.drop_last(), f) + if rules.last().head matches Some(h) && !f.contains(h) { 1nat } else { 0nat }
    }
}

proof fn lemma_unfounded_heads_insert(rules: Seq<GRule>, f: Set<usize>, i: int)
    requires
        0 <= i < rules.len(),
        rules[i].head matches Some(h) && !f.contains(h),
    ensures
        unfounded_heads(rules, f.insert(rules[i].head->0)) < unfounded_heads(rules, f),
    decreases rules.len(),
{
    lemma_unfounded_heads_mono(rules.drop_last(), f, f.insert(rules[i].head->0));
    if i < rules.len() - 1 {
        lemma_unfounded_heads_insert(rules.drop_last(), f, i);
    }
}

proof fn lemma_unfounded_heads_mono(rules: Seq<GRule>, f: Set<usize>, f2: Set<usize>)
    requires
        f.subset_of(f2),
    ensures
        unfounded_heads(rules, f2) <= unfounded_heads(rules, f),
    decreases rules.len(),
{
    if rules.len() > 0 {
        lemma_unfounded_heads_mono(rules.drop_last(), f, f2);
    }
}

fn all_in(ids: &Vec<usize>, s: &BTreeSet<usize>) -> (r: bool)
    ensures
        r == forall|k: int| 0 <= k < ids@.len() ==> s@.contains(#[trigger] ids@[k]),
{
    let mut i: usize = 0;
    while i < ids.len()
        invariant
            i <= ids@.len(),
            forall|k: int| 0 <= k < i ==> s@.contains(#[trigger] ids@[k]),
        decreases ids@.len() - i,
    {
        if !s.contains(&ids[i]) {
            return false;
        }
        i = i + 1;
    }
    true
}

fn none_in(ids: &Vec<usize>, s: &BTreeSet<usize>) -> (r: bool)
    ensures
        r == forall|k: int| 0 <= k < ids@.len() ==> !s@.contains(#[trigger] ids@[k]),
{
    let mut i: usize = 0;
    while i < ids.len()
        invariant
            i <= ids@.len(),
            forall|k: int| 0 <= k < i ==> !s@.contains(#[trigger] ids@[k]),
        decreases ids@.len() - i,
    {
        if s.contains(&ids[i]) {
            return false;
        }
        i = i + 1;
    }
    true
}

/// The atoms of `a` that are also in `b`.
fn restrict_to(a: &BTreeSet<usize>, b: &BTreeSet<usize>) -> (r: BTreeSet<usize>)
    ensures
        r@ == a@.intersect(b@),
{
    let mut out: BTreeSet<usize> = BTreeSet::new();
    for x in it: b.iter()
        invariant
            it.seq().unref().to_set() == b@,
            forall|y: usize| #[trigger] out@.contains(y) ==> b@.contains(y) && a@.contains(y),
            forall|y: usize| #[trigger] b@.contains(y) && a@.contains(y) ==>
                (out@.contains(y) || exists|k: int| it.index() <= k < it.seq().len() && *it.seq()[k] == y),
    {
        proof {
            assert(it.seq()[it.index() as int] == x);
            assert(it.seq().unref()[it.index() as int] == *x);
            assert(it.seq().unref().to_set().contains(*x));
        }
        if a.contains(x) {
            out.insert(*x);
        }
    }
    proof {
        assert(out@ =~= a@.intersect(b@));
    }
    out
}

/// The founded (externally supported) subset of `model`: the atoms of `model`
/// derivable using only rules not blocked by negation under `model` and whose
/// positive bodies are already founded — the least model of the reduct with
/// respect to `model`, restricted to `model`.
pub fn founded_set(model: &BTreeSet<usize>, g: &Ground) -> (f: BTreeSet<usize>)
    ensures
        f@ == lm(g.rules@, model@).intersect(model@),
{
    let rules = &g.rules;
    let ghost s = model@;
    assert(rules@ == g.rules@);
    let mut founded: BTreeSet<usize> = BTreeSet::new();
    loop
        invariant
            s == model@,
            rules@ == g.rules@,
            forall|m: Set<usize>| #[trigger] closed(rules@, s, m) ==> founded@.subset_of(m),
        decreases unfounded_heads(rules@, founded@),
    {
        let ghost start = founded@;
        let mut changed = false;
        let mut i: usize = 0;
        while i < rules.len()
            invariant
                i <= rules@.len(),
                s == model@,
                forall|m: Set<usize>| #[trigger] closed(rules@, s, m) ==> founded@.subset_of(m),
                !changed ==> founded@ == start,
                changed ==> unfounded_heads(rules@, founded@) < unfounded_heads(rules@, start),
                start.subset_of(founded@),
                !changed ==> forall|j: int| 0 <= j < i && active(#[trigger] rules@[j], s) && pos_in(rules@[j], founded@)
                    ==> founded@.contains(rules@[j].head->0),
            decreases rules@.len() - i,
        {
            let r = &rules[i];
            assert(*r == rules@[i as int]);
            if let Some(h) = r.head {
                if !founded.contains(&h) && none_in(&r.neg, model) && all_in(&r.pos, &founded) {
                    let ghost before = founded@;
                    proof {
                        lemma_unfounded_heads_insert(rules@, before, i as int);
                        lemma_unfounded_heads_mono(rules@, start, before);
                        assert forall|m: Set<usize>| #[trigger] closed(rules@, s, m) implies before.insert(h).subset_of(m) by {
                            assert(active(rules@[i as int], s));
                            assert(pos_in(rules@[i as int], before));
                            assert(pos_in(rules@[i as int], m));
                        }
                    }
                    founded.insert(h);
                    changed = true;
                }
            }
            i = i + 1;
        }
        if !changed {
            proof {
                assert(closed(rules@, s, founded@));
                assert(founded@ =~= lm(rules@, s));
            }
            return restrict_to(&founded, model);
        }
    }
}

/// The greatest unfounded set within `model`: atoms held true with no
/// external support. Empty ⇔ `model` is founded.
pub fn greatest_unfounded_set(model: &BTreeSet<usize>, g: &Ground) -> (u: BTreeSet<usize>)
    ensures
        u@ == model@.difference(lm(g.rules@, model@)),
{
    let founded = founded_set(model, g);
    let mut out: BTreeSet<usize> = BTreeSet::new();
    for x in it: model.iter()
        invariant
            founded@ == lm(g.rules@, model@).intersect(model@),
            it.seq().unref().to_set() == model@,
            forall|y: usize| #[trigger] out@.contains(y) ==> model@.contains(y) && !founded@.contains(y),
            forall|y: usize| #[trigger] model@.contains(y) && !founded@.contains(y) ==>
                (out@.contains(y) || exists|k: int| it.index() <= k < it.seq().len() && *it.seq()[k] == y),
    {
        proof {
            assert(it.seq()[it.index() as int] == x);
            assert(it.seq().unref()[it.index() as int] == *x);
            assert(it.seq().unref().to_set().contains(*x));
        }
        if !founded.contains(x) {
            out.insert(*x);
        }
    }
    proof {
        assert(out@ =~= model@.difference(founded@));
        assert(model@.difference(founded@) =~= model@.difference(lm(g.rules@, model@)));
    }
    out
}

/// `s` satisfies every rule: each rule whose body holds under `s` has its head
/// in `s`, and no constraint's body holds.
pub open spec fn classical_model(rules: Seq<GRule>, s: Set<usize>) -> bool {
    forall|i: int| 0 <= i < rules.len() && pos_in(#[trigger] rules[i], s) && neg_out(rules[i], s)
        ==> (rules[i].head matches Some(h) && s.contains(h))
}

/// Is `model` (true atoms; all others false) a classical model of `g`?
pub fn is_model(model: &BTreeSet<usize>, g: &Ground) -> (b: bool)
    ensures
        b == classical_model(g.rules@, model@),
{
    let mut i: usize = 0;
    while i < g.rules.len()
        invariant
            i <= g.rules@.len(),
            forall|j: int| 0 <= j < i && pos_in(#[trigger] g.rules@[j], model@) && neg_out(g.rules@[j], model@)
                ==> (g.rules@[j].head matches Some(h) && model@.contains(h)),
        decreases g.rules@.len() - i,
    {
        let r = &g.rules[i];
        assert(*r == g.rules@[i as int]);
        let body_holds = all_in(&r.pos, model) && none_in(&r.neg, model);
        if body_holds {
            match r.head {
                Some(h) => {
                    if !model.contains(&h) {
                        return false;
                    }
                },
                None => {
                    return false;
                },
            }
        }
        i = i + 1;
    }
    true
}

/// `model` is an answer set iff it is a classical model and has no non-empty
/// unfounded subset.
pub fn is_answer_set(model: &BTreeSet<usize>, g: &Ground) -> (b: bool)
    ensures
        b == (classical_model(g.rules@, model@) && model@.difference(lm(g.rules@, model@)).is_empty()),
        b == stable(g.rules@, model@),
{
    let m = is_model(model, g);
    let u = greatest_unfounded_set(model, g);
    proof {
        lemma_answer_set_iff_stable(g.rules@, model@);
    }
    m && u.is_empty()
}

/// The least model of the reduct is closed under it.
pub proof fn lemma_lm_closed(rules: Seq<GRule>, s: Set<usize>)
    ensures
        closed(rules, s, lm(rules, s)),
{
    let l = lm(rules, s);
    assert forall|i: int| 0 <= i < rules.len() && active(#[trigger] rules[i], s) && pos_in(rules[i], l)
        implies l.contains(rules[i].head->0) by {
        assert forall|m: Set<usize>| #[trigger] closed(rules, s, m) implies m.contains(rules[i].head->0) by {
            assert(pos_in(rules[i], m));
        }
    }
}

/// The unfounded-set verifier and the reduct definition agree: a candidate is
/// a classical model without unfounded atoms exactly when it is a stable model.
pub proof fn lemma_answer_set_iff_stable(rules: Seq<GRule>, s: Set<usize>)
    ensures
        (classical_model(rules, s) && s.difference(lm(rules, s)).is_empty()) <==> stable(rules, s),
{
    let l = lm(rules, s);
    lemma_lm_closed(rules, s);
    if classical_model(rules, s) && s.difference(l).is_empty() {
        assert(closed(rules, s, s));
        assert forall|x: usize| s.contains(x) implies l.contains(x) by {
            assert(!s.difference(l).contains(x));
        }
        assert(s =~= l);
        assert forall|i: int| 0 <= i < rules.len() && (#[trigger] rules[i]).head is None
            implies !(pos_in(rules[i], s) && neg_out(rules[i], s)) by {}
    }
    if stable(rules, s) {
        assert forall|i: int| 0 <= i < rules.len() && pos_in(#[trigger] rules[i], s) && neg_out(rules[i], s)
            implies (rules[i].head matches Some(h) && s.contains(h)) by {
            if rules[i].head is Some {
                assert(active(rules[i], s));
            }
        }
        assert(s.difference(l) =~= Set::<usize>::empty());
    }
}

} // verus!

verus! {

/// The atoms behind a set of atom ids.
pub open spec fn atoms_of(g: Ground, s: Set<usize>) -> Set<AtomView> {
    s.map(|id: usize| av(g.atoms@[id as int]))
}

proof fn lemma_multiset_same_set<A>(a: Seq<A>, b: Seq<A>)
    requires
        a.to_multiset() == b.to_multiset(),
    ensures
        a.to_set() == b.to_set(),
{
    assert forall|x: A| a.to_set().contains(x) <==> b.to_set().contains(x) by {
        vstd::seq_lib::to_multiset_contains(a, x);
        vstd::seq_lib::to_multiset_contains(b, x);
        if a.to_multiset().count(x) > 0 {
            assert(a.to_multiset().contains(x));
        }
        if b.to_multiset().count(x) > 0 {
            assert(b.to_multiset().contains(x));
        }
        if a.contains(x) {
            assert(a.to_multiset().count(x) > 0);
        }
        if b.contains(x) {
            assert(b.to_multiset().count(x) > 0);
        }
    }
    assert(a.to_set() =~= b.to_set());
}

proof fn lemma_ids_atoms(g: Ground, l: Seq<usize>, e: Seq<AtomView>)
    requires
        e.to_multiset() == model_atoms(g, l),
    ensures
        e.to_set() == atoms_of(g, l.to_set()),
{
    let f = |id: usize| av(g.atoms@[id as int]);
    let lf = l.map_values(f);
    lemma_multiset_same_set(e, lf);
    assert forall|x: AtomView| lf.to_set().contains(x) <==> atoms_of(g, l.to_set()).contains(x) by {
        if lf.contains(x) {
            let i = choose|i: int| 0 <= i < lf.len() && lf[i] == x;
            assert(l.to_set().contains(l[i]));
        }
        if atoms_of(g, l.to_set()).contains(x) {
            let id = choose|id: usize| l.to_set().contains(id) && f(id) == x;
            let i = choose|i: int| 0 <= i < l.len() && l[i] == id;
            assert(lf[i] == x);
        }
    }
    assert(lf.to_set() =~= atoms_of(g, l.to_set()));
}

/// The unfounded-set test accepts exactly the answer sets the solver lists:
/// for a well-formed ground program without repeated atoms and its answer
/// list `ms`, a set `s` of atom ids is a classical model without unfounded
/// atoms iff `ms` holds a model made of exactly `s`'s atoms.
pub proof fn lemma_answer_test_agrees_with_solver(g: Ground, ms: Seq<Vec<GroundAtom>>, s: Set<usize>)
    requires
        ground_wf(g),
        mv(g.atoms@).no_duplicates(),
        answer_list(g, ms),
        forall|x: usize| #[trigger] s.contains(x) ==> x < g.atoms@.len(),
    ensures
        (classical_model(g.rules@, s) && s.difference(lm(g.rules@, s)).is_empty())
            <==> exists|j: int| 0 <= j < ms.len() && #[trigger] mv(ms[j]@).to_set() == atoms_of(g, s),
{
    broadcast use vstd::seq_lib::group_to_multiset_ensures;
    let n = g.atoms@.len();
    lemma_answer_set_iff_stable(g.rules@, s);
    let (ids, each) = choose|ids: Seq<Seq<usize>>, each: Seq<Seq<AtomView>>|
        #![trigger lists_stable(g.rules@, ids), each.to_multiset()]
        lists_stable(g.rules@, ids) && each.len() == ids.len()
        && (forall|k: int| 0 <= k < ids.len() ==> (#[trigger] each[k]).to_multiset() == model_atoms(g, ids[k]))
        && mvs(ms).to_multiset() == each.to_multiset();
    assert(mvs(ms).len() == ms.len());
    let below = Set::new(|x: usize| x < n);
    assert forall|m: Set<usize>| #[trigger] stable(g.rules@, m) implies m.subset_of(below) by {
        assert(closed(g.rules@, m, below));
    }
    if stable(g.rules@, s) {
        let k = choose|k: int| 0 <= k < ids.len() && (#[trigger] ids[k]).to_set() == s;
        assert(each.to_multiset().count(each[k]) > 0) by {
            vstd::seq_lib::to_multiset_contains(each, each[k]);
            assert(each.contains(each[k]));
        }
        assert(mvs(ms).to_multiset().count(each[k]) > 0);
        vstd::seq_lib::to_multiset_contains(mvs(ms), each[k]);
        assert(mvs(ms).to_multiset().contains(each[k]));
        assert(mvs(ms).contains(each[k]));
        let j = choose|j: int| 0 <= j < mvs(ms).len() && mvs(ms)[j] == each[k];
        assert(mvs(ms)[j] == mv(ms[j]@));
        lemma_ids_atoms(g, ids[k], each[k]);
        assert(mv(ms[j]@).to_set() == atoms_of(g, s));
    }
    if exists|j: int| 0 <= j < ms.len() && #[trigger] mv(ms[j]@).to_set() == atoms_of(g, s) {
        let j = choose|j: int| 0 <= j < ms.len() && #[trigger] mv(ms[j]@).to_set() == atoms_of(g, s);
        assert(mvs(ms)[j] == mv(ms[j]@));
        assert(mvs(ms).contains(mvs(ms)[j]));
        vstd::seq_lib::to_multiset_contains(mvs(ms), mvs(ms)[j]);
        assert(each.to_multiset().count(mvs(ms)[j]) > 0);
        vstd::seq_lib::to_multiset_contains(each, mvs(ms)[j]);
        assert(each.to_multiset().contains(mvs(ms)[j]));
        let k = choose|k: int| 0 <= k < each.len() && each[k] == mvs(ms)[j];
        lemma_ids_atoms(g, ids[k], each[k]);
        let t = ids[k].to_set();
        assert(stable(g.rules@, t));
        assert(t.subset_of(below));
        assert(atoms_of(g, t) == atoms_of(g, s));
        assert forall|x: usize| t.contains(x) <==> s.contains(x) by {
            let f = |id: usize| av(g.atoms@[id as int]);
            if t.contains(x) {
                assert(atoms_of(g, t).contains(f(x)));
                assert(atoms_of(g, s).contains(f(x)));
                let y = choose|y: usize| s.contains(y) && f(y) == f(x);
                assert(mv(g.atoms@)[x as int] == mv(g.atoms@)[y as int]);
            }
            if s.contains(x) {
                assert(atoms_of(g, s).contains(f(x)));
                assert(atoms_of(g, t).contains(f(x)));
                let y = choose|y: usize| t.contains(y) && f(y) == f(x);
                assert(mv(g.atoms@)[x as int] == mv(g.atoms@)[y as int]);
            }
        }
        assert(t =~= s);
    }
}

/// The answer list holds every stable model and nothing else: for a
/// well-formed ground program without repeated atoms and its answer list
/// `ms`, a set `s` of atom ids is a stable model — `s` is the least model of
/// the reduct with respect to `s` and no constraint's body holds under `s` —
/// iff `ms` holds a model made of exactly `s`'s atoms.
pub proof fn lemma_answer_list_is_the_stable_models(g: Ground, ms: Seq<Vec<GroundAtom>>, s: Set<usize>)
    requires
        ground_wf(g),
        mv(g.atoms@).no_duplicates(),
        answer_list(g, ms),
        forall|x: usize| #[trigger] s.contains(x) ==> x < g.atoms@.len(),
    ensures
        stable(g.rules@, s) <==> exists|j: int| 0 <= j < ms.len() && #[trigger] mv(ms[j]@).to_set() == atoms_of(g, s),
{
    lemma_answer_set_iff_stable(g.rules@, s);
    lemma_answer_test_agrees_with_solver(g, ms, s);
}

} // verus!
