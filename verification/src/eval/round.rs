//! One round of the consequence operator over a stratum: the facts its rules
//! derive from the current database (all of them, or, semi-naively, those that
//! use a fact changed in the previous round), their `⊕`-combination into the
//! database, and the repetition of rounds until nothing changes.
use vstd::prelude::*;
use crate::eval::coreir::{CoreAtom, CoreLiteral, CorePred, CoreProgram, CoreRule, is_aggregate_rule, is_aggregate_rule_spec};
use crate::eval::naive::{
    body_slots_below, delta_kinds, ev, ground_spec, kinds_agree, slots_below, solve_d_spec,
    unbound, build_head, solve_delta, ErrV, EvalError, Solved,
};
use crate::eval::store::{Db, DbS, Tuple, dbs, find_row, insert_s, lemma_row_in_view, rows_v};
use crate::eval::value::{Ann, GroundVal, ann_id, ann_oplus, same_kind, weight_lt};
use crate::eval::content::{alike, lemma_round_facts_alike};

verus! {

/// A derived fact by content: predicate, tuple, annotation.
pub type FactV = (Seq<char>, Seq<GroundVal>, Ann);

pub open spec fn facts_v(f: Seq<(String, Tuple, Ann)>) -> Seq<FactV> {
    f.map_values(|x: (String, Tuple, Ann)| (x.0@, x.1@, x.2))
}

/// The body position and rows a delta literal ranges over, by content.
pub open spec fn delta_v(delta: Option<(usize, &Vec<(Tuple, Ann)>)>) -> Option<(int, Seq<(Seq<GroundVal>, Ann)>)> {
    match delta {
        Some((p, rows)) => Some((p as int, rows_v(rows@))),
        None => None,
    }
}

/// The head facts of the first `k` solved bindings; the first binding that
/// leaves a head variable unbound stops.
pub open spec fn heads_upto(head: CoreAtom, solved: Solved, k: nat) -> Result<Seq<FactV>, ErrV>
    decreases k,
{
    if k == 0 {
        Ok(Seq::empty())
    } else {
        match heads_upto(head, solved, (k - 1) as nat) {
            Err(e) => Err(e),
            Ok(s) => match ground_spec(head.args@, solved[k - 1].0, false) {
                Err(e) => Err(ev(e)),
                Ok(t) => Ok(s.push((head.pred@, t, solved[k - 1].1))),
            },
        }
    }
}

/// The facts one rule derives: its head's relation must exist; the body is
/// solved from the all-unbound binding and the head semiring's `⊗` identity
/// (with the delta literal, if any, ranging over the delta rows); each
/// completed binding gives a head tuple.
pub open spec fn rule_facts_spec(db: Db, preds: Seq<CorePred>, cur: u32, rule: CoreRule, d: Option<(int, Seq<(Seq<GroundVal>, Ann)>)>) -> Result<Seq<FactV>, ErrV> {
    if !db.preds().contains(rule.head.pred@) {
        Err(ErrV::UnknownPred(rule.head.pred@))
    } else {
        match solve_d_spec(db, preds, cur, rule.body@, 0, unbound(rule.var_count as nat), ann_id(db.rel(rule.head.pred@).semiring), d) {
            Err(e) => Err(e),
            Ok(s) => heads_upto(rule.head, s, s.len()),
        }
    }
}

/// Each held relation's annotations belong to its semiring.
pub open spec fn db_typed(db: Db) -> bool {
    forall|p: Seq<char>, t: Seq<GroundVal>| db.preds().contains(p) && #[trigger] db.rel(p).view().dom().contains(t)
        ==> same_kind(ann_id(db.rel(p).semiring), db.rel(p).view()[t])
}

/// A rule's variable slots lie below its slot count.
pub open spec fn rule_ok(rule: CoreRule) -> bool {
    &&& body_slots_below(rule.body@, rule.var_count as nat)
    &&& slots_below(rule.head.args@, rule.var_count as nat)
}

/// Every held positive body predicate shares the head's semiring.
pub open spec fn rule_typed(db: Db, rule: CoreRule) -> bool {
    db.preds().contains(rule.head.pred@) ==> forall|i: int| 0 <= i < rule.body@.len() && #[trigger] rule.body@[i] is Pos
        && db.preds().contains(rule.body@[i]->Pos_0.pred@)
        ==> db.rel(rule.body@[i]->Pos_0.pred@).semiring == db.rel(rule.head.pred@).semiring
}

pub proof fn lemma_rule_kinds(db: Db, rule: CoreRule)
    requires
        db.wf(),
        db_typed(db),
        rule_typed(db, rule),
        db.preds().contains(rule.head.pred@),
    ensures
        kinds_agree(db, rule.body@, ann_id(db.rel(rule.head.pred@).semiring)),
{
    let id = ann_id(db.rel(rule.head.pred@).semiring);
    assert forall|i: int, k: int| 0 <= i < rule.body@.len() && #[trigger] rule.body@[i] is Pos
        && db.preds().contains(rule.body@[i]->Pos_0.pred@)
        && 0 <= k < db.rel(rule.body@[i]->Pos_0.pred@).rows@.len()
        implies same_kind(id, #[trigger] db.rel(rule.body@[i]->Pos_0.pred@).rows@[k].1) by {
        let p = rule.body@[i]->Pos_0.pred@;
        lemma_row_in_view(db, p, k);
        let t = db.rel(p).rows@[k].0@;
        assert(db.rel(p).view().dom().contains(t));
    }
}

/// A binding of `n` unbound slots.
pub fn unbound_binding(n: u32) -> (b: Vec<Option<GroundVal>>)
    ensures
        b@ == unbound(n as nat),
{
    let mut b: Vec<Option<GroundVal>> = Vec::new();
    let mut k: u32 = 0;
    while k < n
        invariant
            k <= n,
            b@ == unbound(k as nat),
        decreases n - k,
    {
        b.push(None);
        assert(b@ =~= unbound((k + 1) as nat));
        k = k + 1;
    }
    b
}

/// Append the facts `rule` derives to `out`.
pub fn derive_rule(db: &Db, preds: &Vec<CorePred>, cur: u32, rule: &CoreRule, delta: Option<(usize, &Vec<(Tuple, Ann)>)>, out: &mut Vec<(String, Tuple, Ann)>) -> (r: Result<(), EvalError>)
    requires
        db.wf(),
        db_typed(*db),
        rule_typed(*db, *rule),
        rule_ok(*rule),
        db.preds().contains(rule.head.pred@) ==> delta_kinds(delta_v(delta), ann_id(db.rel(rule.head.pred@).semiring)),
    ensures
        match r {
            Ok(()) => rule_facts_spec(*db, preds@, cur, *rule, delta_v(delta)) == Ok::<Seq<FactV>, ErrV>(facts_v(final(out)@).skip(old(out)@.len() as int))
                && facts_v(final(out)@).take(old(out)@.len() as int) == facts_v(old(out)@)
                && old(out)@.len() <= final(out)@.len(),
            Err(e) => rule_facts_spec(*db, preds@, cur, *rule, delta_v(delta)) == Err::<Seq<FactV>, ErrV>(ev(e)),
        },
        r is Ok ==> db.preds().contains(rule.head.pred@),
        r is Ok ==> forall|i: int| old(out)@.len() <= i < final(out)@.len() ==> (#[trigger] final(out)@[i]).0@ == rule.head.pred@
            && same_kind(ann_id(db.rel(rule.head.pred@).semiring), final(out)@[i].2),
{
    let head_sem = match db.relation(rule.head.pred.as_str()) {
        Some(rel) => rel.semiring,
        None => return Err(EvalError::UnknownPred(rule.head.pred.clone())),
    };
    let id = Ann::otimes_id(head_sem);
    let binding = unbound_binding(rule.var_count);
    let mut solved: Vec<(Vec<Option<GroundVal>>, Ann)> = Vec::new();
    proof {
        lemma_rule_kinds(*db, *rule);
    }
    match solve_delta(db, preds, cur, &rule.body, 0, &binding, id, delta, &mut solved) {
        Ok(()) => {},
        Err(e) => return Err(e),
    }
    assert(binding@.len() == rule.var_count);
    let ghost sv = crate::eval::naive::outs_view(solved@);
    assert(sv.skip(0) =~= sv);
    let ghost o0 = facts_v(out@);
    let ghost n0 = out@.len();
    let mut k: usize = 0;
    assert(facts_v(out@).skip(n0 as int) =~= Seq::<FactV>::empty());
    assert(facts_v(out@).take(n0 as int) =~= o0);
    assert forall|i: int| 0 <= i < solved@.len() implies (#[trigger] solved@[i]).0@.len() == rule.var_count by {
        assert(same_kind(id, solved@[i].1));
    }
    while k < solved.len()
        invariant
            k <= solved@.len(),
            sv == crate::eval::naive::outs_view(solved@),
            forall|i: int| 0 <= i < solved@.len() ==> same_kind(id, #[trigger] solved@[i].1),
            forall|i: int| 0 <= i < solved@.len() ==> (#[trigger] solved@[i]).0@.len() == rule.var_count,
            slots_below(rule.head.args@, rule.var_count as nat),
            id == ann_id(db.rel(rule.head.pred@).semiring),
            db.preds().contains(rule.head.pred@),
            solve_d_spec(*db, preds@, cur, rule.body@, 0, unbound(rule.var_count as nat), id, delta_v(delta)) == Ok::<Solved, ErrV>(sv),
            n0 == old(out)@.len(),
            o0 == facts_v(old(out)@),
            n0 <= out@.len(),
            facts_v(out@).take(n0 as int) == o0,
            heads_upto(rule.head, sv, k as nat) == Ok::<Seq<FactV>, ErrV>(facts_v(out@).skip(n0 as int)),
            forall|i: int| n0 <= i < out@.len() ==> (#[trigger] out@[i]).0@ == rule.head.pred@ && same_kind(id, out@[i].2),
        decreases solved@.len() - k,
    {
        let (b, acc) = (&solved[k].0, solved[k].1);
        assert(sv[k as int] == (b@, acc));
        match build_head(&rule.head, b) {
            Ok(t) => {
                let ghost f0 = facts_v(out@);
                out.push((rule.head.pred.clone(), t, acc));
                proof {
                    assert(facts_v(out@) =~= f0.push((rule.head.pred@, t@, acc)));
                    assert(facts_v(out@).skip(n0 as int) =~= f0.skip(n0 as int).push((rule.head.pred@, t@, acc)));
                    assert(facts_v(out@).take(n0 as int) =~= f0.take(n0 as int));
                }
            },
            Err(e) => {
                proof {
                    lemma_heads_err_extends(rule.head, sv, (k + 1) as nat, sv.len());
                }
                return Err(e);
            },
        }
        k = k + 1;
    }
    Ok(())
}

proof fn lemma_heads_err_extends(head: CoreAtom, solved: Solved, k: nat, n: nat)
    requires
        k <= n,
        heads_upto(head, solved, k) is Err,
    ensures
        heads_upto(head, solved, n) == heads_upto(head, solved, k),
    decreases n - k,
{
    if k < n {
        lemma_heads_err_extends(head, solved, k, (n - 1) as nat);
    }
}

/// The rules of a program in stratum `cur` that are not aggregate rules.
pub open spec fn in_round(rule: CoreRule, cur: u32) -> bool {
    rule.stratum == cur && !is_aggregate_rule_spec(rule)
}

/// Every rule is well formed and typed against the database.
pub open spec fn prog_ok(db: Db, prog: CoreProgram) -> bool {
    forall|i: int| 0 <= i < prog.rules@.len() ==> rule_ok(#[trigger] prog.rules@[i]) && rule_typed(db, prog.rules@[i])
}

/// The facts one naive round derives from the first `k` rules.
pub open spec fn round_upto(db: Db, prog: CoreProgram, cur: u32, k: nat) -> Result<Seq<FactV>, ErrV>
    decreases k,
{
    if k == 0 {
        Ok(Seq::empty())
    } else {
        match round_upto(db, prog, cur, (k - 1) as nat) {
            Err(e) => Err(e),
            Ok(s) => if in_round(prog.rules@[k - 1], cur) {
                match rule_facts_spec(db, prog.predicates@, cur, prog.rules@[k - 1], None) {
                    Err(e) => Err(e),
                    Ok(f) => Ok(s + f),
                }
            } else {
                Ok(s)
            },
        }
    }
}

/// The facts one naive round derives: every non-aggregate rule of the stratum
/// over the whole database.
pub open spec fn round_spec(db: Db, prog: CoreProgram, cur: u32) -> Result<Seq<FactV>, ErrV> {
    round_upto(db, prog, cur, prog.rules@.len())
}

/// Facts whose held predicates get annotations of their semiring.
pub open spec fn facts_typed(db: Db, f: Seq<(String, Tuple, Ann)>) -> bool {
    forall|i: int| 0 <= i < f.len() && db.preds().contains((#[trigger] f[i]).0@)
        ==> same_kind(ann_id(db.rel(f[i].0@).semiring), f[i].2)
}

proof fn lemma_round_err_extends(db: Db, prog: CoreProgram, cur: u32, k: nat, n: nat)
    requires
        k <= n,
        round_upto(db, prog, cur, k) is Err,
    ensures
        round_upto(db, prog, cur, n) == round_upto(db, prog, cur, k),
    decreases n - k,
{
    if k < n {
        lemma_round_err_extends(db, prog, cur, k, (n - 1) as nat);
    }
}

/// The facts of one naive round.
pub fn derive_round(prog: &CoreProgram, db: &Db, cur: u32) -> (r: Result<Vec<(String, Tuple, Ann)>, EvalError>)
    requires
        db.wf(),
        db_typed(*db),
        prog_ok(*db, *prog),
    ensures
        match r {
            Ok(f) => round_spec(*db, *prog, cur) == Ok::<Seq<FactV>, ErrV>(facts_v(f@)) && facts_typed(*db, f@)
                && forall|i: int| 0 <= i < f@.len() ==> db.preds().contains((#[trigger] facts_v(f@)[i]).0),
            Err(e) => round_spec(*db, *prog, cur) == Err::<Seq<FactV>, ErrV>(ev(e)),
        },
{
    let mut out: Vec<(String, Tuple, Ann)> = Vec::new();
    let mut k: usize = 0;
    assert(facts_v(out@) =~= Seq::<FactV>::empty());
    while k < prog.rules.len()
        invariant
            k <= prog.rules@.len(),
            db.wf(),
            db_typed(*db),
            prog_ok(*db, *prog),
            round_upto(*db, *prog, cur, k as nat) == Ok::<Seq<FactV>, ErrV>(facts_v(out@)),
            facts_typed(*db, out@),
            forall|i: int| 0 <= i < out@.len() ==> db.preds().contains((#[trigger] facts_v(out@)[i]).0),
        decreases prog.rules@.len() - k,
    {
        let rule = &prog.rules[k];
        assert(rule_ok(*rule) && rule_typed(*db, *rule));
        if rule.stratum == cur && !is_aggregate_rule(rule) {
            let ghost f0 = out@;
            match derive_rule(db, &prog.predicates, cur, rule, None, &mut out) {
                Ok(()) => {
                    proof {
                        assert(facts_v(out@) =~= facts_v(f0) + facts_v(out@).skip(f0.len() as int)) by {
                            assert(facts_v(out@) =~= facts_v(out@).take(f0.len() as int) + facts_v(out@).skip(f0.len() as int));
                        }
                        assert forall|i: int| 0 <= i < out@.len() && db.preds().contains((#[trigger] out@[i]).0@)
                            implies same_kind(ann_id(db.rel(out@[i].0@).semiring), out@[i].2) by {
                            if i < f0.len() {
                                assert(facts_v(out@).take(f0.len() as int)[i] == facts_v(f0)[i]);
                                assert(out@[i].2 == f0[i].2 && out@[i].0@ == f0[i].0@);
                            }
                        }
                        assert forall|i: int| 0 <= i < out@.len() implies db.preds().contains((#[trigger] facts_v(out@)[i]).0) by {
                            if i < f0.len() {
                                assert(facts_v(out@).take(f0.len() as int)[i] == facts_v(f0)[i]);
                            } else {
                                assert(facts_v(out@)[i].0 == out@[i].0@);
                            }
                        }
                    }
                },
                Err(e) => {
                    proof {
                        lemma_round_err_extends(*db, *prog, cur, (k + 1) as nat, prog.rules@.len());
                    }
                    return Err(e);
                },
            }
        }
        k = k + 1;
    }
    Ok(out)
}


/// The database by content: each held predicate's relation view.
pub open spec fn db_view(db: Db) -> Map<Seq<char>, Map<Seq<GroundVal>, Ann>> {
    Map::new(|p: Seq<char>| db.preds().contains(p), |p: Seq<char>| db.rel(p).view())
}

/// The same predicates, each with its semiring.
pub open spec fn same_shape(a: Db, b: Db) -> bool {
    &&& b.preds() == a.preds()
    &&& forall|p: Seq<char>| #[trigger] a.preds().contains(p) ==> b.rel(p).semiring == a.rel(p).semiring
}

/// `⊕`-combine one tuple into a relation view, and whether it changed: a new
/// tuple, or a strictly better tropical weight.
pub open spec fn combine_view(m: Map<Seq<GroundVal>, Ann>, t: Seq<GroundVal>, a: Ann) -> (Map<Seq<GroundVal>, Ann>, bool) {
    if m.dom().contains(t) {
        let (n, better) = ann_oplus(m[t], a);
        if better { (m.insert(t, n), true) } else { (m, false) }
    } else {
        (m.insert(t, a), true)
    }
}

/// The first `k` facts combined into `v` in order, and whether any changed it;
/// a fact of an unheld predicate stops.
pub open spec fn apply_upto(v: Map<Seq<char>, Map<Seq<GroundVal>, Ann>>, f: Seq<FactV>, k: nat) -> Result<(Map<Seq<char>, Map<Seq<GroundVal>, Ann>>, bool), ErrV>
    decreases k,
{
    if k == 0 {
        Ok((v, false))
    } else {
        match apply_upto(v, f, (k - 1) as nat) {
            Err(e) => Err(e),
            Ok((w, ch)) => {
                let p = f[k - 1].0;
                if !w.dom().contains(p) {
                    Err(ErrV::UnknownPred(p))
                } else {
                    let (m, c) = combine_view(w[p], f[k - 1].1, f[k - 1].2);
                    Ok((w.insert(p, m), ch || c))
                }
            },
        }
    }
}

/// All facts combined into `v` in order.
pub open spec fn apply_spec(v: Map<Seq<char>, Map<Seq<GroundVal>, Ann>>, f: Seq<FactV>) -> Result<(Map<Seq<char>, Map<Seq<GroundVal>, Ann>>, bool), ErrV> {
    apply_upto(v, f, f.len())
}

/// The first `k` facts combined into the content `s` in order, and whether
/// any changed it; a fact of an unheld predicate stops.
pub open spec fn apply_s_upto(s: DbS, f: Seq<FactV>, k: nat) -> Result<(DbS, bool), ErrV>
    decreases k,
{
    if k == 0 {
        Ok((s, false))
    } else {
        match apply_s_upto(s, f, (k - 1) as nat) {
            Err(e) => Err(e),
            Ok((w, ch)) => if !w.dom().contains(f[k - 1].0) {
                Err(ErrV::UnknownPred(f[k - 1].0))
            } else {
                let (w2, c) = insert_s(w, f[k - 1].0, f[k - 1].1, f[k - 1].2);
                Ok((w2, ch || c))
            },
        }
    }
}

pub open spec fn apply_s(s: DbS, f: Seq<FactV>) -> Result<(DbS, bool), ErrV> {
    apply_s_upto(s, f, f.len())
}

/// The first `k` facts combined into `s`, with the keys that changed, each
/// once, in the order of their first change.
pub open spec fn track_upto(s: DbS, f: Seq<FactV>, k: nat) -> Result<(DbS, Seq<(Seq<char>, Seq<GroundVal>)>), ErrV>
    decreases k,
{
    if k == 0 {
        Ok((s, Seq::empty()))
    } else {
        match track_upto(s, f, (k - 1) as nat) {
            Err(e) => Err(e),
            Ok((w, keys)) => if !w.dom().contains(f[k - 1].0) {
                Err(ErrV::UnknownPred(f[k - 1].0))
            } else {
                let (w2, c) = insert_s(w, f[k - 1].0, f[k - 1].1, f[k - 1].2);
                Ok((w2, if c && !keys.contains((f[k - 1].0, f[k - 1].1)) { keys.push((f[k - 1].0, f[k - 1].1)) } else { keys }))
            },
        }
    }
}

/// The annotation tuple `t` of `p` holds in `s`.
pub open spec fn ann_in(s: DbS, p: Seq<char>, t: Seq<GroundVal>) -> Ann {
    s[p].2[find_row(s[p].2, t)->0].1
}

/// The changed keys with their annotations in `s`.
pub open spec fn next_of(s: DbS, keys: Seq<(Seq<char>, Seq<GroundVal>)>) -> Seq<FactV> {
    keys.map_values(|k: (Seq<char>, Seq<GroundVal>)| (k.0, k.1, ann_in(s, k.0, k.1)))
}

/// The facts combined into `s`, and the next delta: each changed tuple
/// once, in the order of its first change, with its new annotation.
pub open spec fn track_s(s: DbS, f: Seq<FactV>) -> Result<(DbS, Seq<FactV>), ErrV> {
    match track_upto(s, f, f.len()) {
        Err(e) => Err(e),
        Ok((w, keys)) => Ok((w, next_of(w, keys))),
    }
}

pub open spec fn keys_v(keys: Seq<(String, Tuple)>) -> Seq<(Seq<char>, Seq<GroundVal>)> {
    keys.map_values(|k: (String, Tuple)| (k.0@, k.1@))
}

proof fn lemma_apply_s_err_extends(s: DbS, f: Seq<FactV>, k: nat, n: nat)
    requires
        k <= n,
        apply_s_upto(s, f, k) is Err,
    ensures
        apply_s_upto(s, f, n) == apply_s_upto(s, f, k),
    decreases n - k,
{
    if k < n {
        lemma_apply_s_err_extends(s, f, k, (n - 1) as nat);
    }
}

proof fn lemma_track_err_extends(s: DbS, f: Seq<FactV>, k: nat, n: nat)
    requires
        k <= n,
        track_upto(s, f, k) is Err,
    ensures
        track_upto(s, f, n) == track_upto(s, f, k),
    decreases n - k,
{
    if k < n {
        lemma_track_err_extends(s, f, k, (n - 1) as nat);
    }
}

proof fn lemma_apply_err_extends(v: Map<Seq<char>, Map<Seq<GroundVal>, Ann>>, f: Seq<FactV>, k: nat, n: nat)
    requires
        k <= n,
        apply_upto(v, f, k) is Err,
    ensures
        apply_upto(v, f, n) == apply_upto(v, f, k),
    decreases n - k,
{
    if k < n {
        lemma_apply_err_extends(v, f, k, (n - 1) as nat);
    }
}

proof fn lemma_apply_ok(v: Map<Seq<char>, Map<Seq<GroundVal>, Ann>>, f: Seq<FactV>, k: nat)
    requires
        k <= f.len(),
        forall|i: int| 0 <= i < f.len() ==> v.dom().contains((#[trigger] f[i]).0),
    ensures
        apply_upto(v, f, k) matches Ok((w, _)) && w.dom() == v.dom(),
    decreases k,
{
    if k > 0 {
        lemma_apply_ok(v, f, (k - 1) as nat);
        let w = apply_upto(v, f, (k - 1) as nat)->Ok_0.0;
        assert(w.dom().contains(f[k - 1].0));
        let (m, c) = combine_view(w[f[k - 1].0], f[k - 1].1, f[k - 1].2);
        assert(w.insert(f[k - 1].0, m).dom() =~= w.dom());
    }
}

proof fn lemma_apply_unchanged(v: Map<Seq<char>, Map<Seq<GroundVal>, Ann>>, f: Seq<FactV>, k: nat)
    requires
        apply_upto(v, f, k) matches Ok((_, ch)) && !ch,
    ensures
        apply_upto(v, f, k) matches Ok((w, _)) && w == v,
    decreases k,
{
    if k > 0 {
        lemma_apply_unchanged(v, f, (k - 1) as nat);
        let w = apply_upto(v, f, (k - 1) as nat)->Ok_0.0;
        assert(w.insert(f[k - 1].0, w[f[k - 1].0]) =~= w);
    }
}

/// A copy of a tuple.
pub fn tuple_copy(t: &Tuple) -> (c: Tuple)
    ensures
        c@ == t@,
{
    let mut c: Tuple = Vec::new();
    let mut i: usize = 0;
    while i < t.len()
        invariant
            i <= t@.len(),
            c@ == t@.take(i as int),
        decreases t@.len() - i,
    {
        c.push(t[i]);
        assert(c@ =~= t@.take(i + 1));
        i = i + 1;
    }
    assert(t@.take(t@.len() as int) =~= t@);
    c
}

/// `⊕`-combine the facts into the database in order; whether any changed it.
pub fn apply_facts(db: &mut Db, facts: &Vec<(String, Tuple, Ann)>) -> (r: Result<bool, EvalError>)
    requires
        old(db).wf(),
        db_typed(*old(db)),
        facts_typed(*old(db), facts@),
    ensures
        final(db).wf(),
        db_typed(*final(db)),
        same_shape(*old(db), *final(db)),
        match r {
            Ok(ch) => apply_spec(db_view(*old(db)), facts_v(facts@)) == Ok::<(Map<Seq<char>, Map<Seq<GroundVal>, Ann>>, bool), ErrV>((db_view(*final(db)), ch)),
            Err(e) => apply_spec(db_view(*old(db)), facts_v(facts@)) == Err::<(Map<Seq<char>, Map<Seq<GroundVal>, Ann>>, bool), ErrV>(ev(e)),
        },
        match r {
            Ok(ch) => apply_s(dbs(*old(db)), facts_v(facts@)) == Ok::<(DbS, bool), ErrV>((dbs(*final(db)), ch)),
            Err(e) => apply_s(dbs(*old(db)), facts_v(facts@)) == Err::<(DbS, bool), ErrV>(ev(e)),
        },
{
    let ghost db0 = *db;
    let ghost fv = facts_v(facts@);
    let mut changed = false;
    let mut i: usize = 0;
    while i < facts.len()
        invariant
            i <= facts@.len(),
            fv == facts_v(facts@),
            db.wf(),
            db_typed(*db),
            db0 == *old(db),
            same_shape(db0, *db),
            facts_typed(db0, facts@),
            apply_upto(db_view(db0), fv, i as nat) == Ok::<(Map<Seq<char>, Map<Seq<GroundVal>, Ann>>, bool), ErrV>((db_view(*db), changed)),
            apply_s_upto(dbs(db0), fv, i as nat) == Ok::<(DbS, bool), ErrV>((dbs(*db), changed)),
        decreases facts@.len() - i,
    {
        let pred = facts[i].0.as_str();
        let ann = facts[i].2;
        let ghost t = facts@[i as int].1@;
        assert(fv[i as int] == (pred@, t, ann));
        if db.relation(pred).is_none() {
            proof {
                assert(!db_view(*db).dom().contains(pred@));
                lemma_apply_err_extends(db_view(db0), fv, (i + 1) as nat, fv.len());
                assert(!dbs(*db).dom().contains(pred@));
                lemma_apply_s_err_extends(dbs(db0), fv, (i + 1) as nat, fv.len());
            }
            return Err(EvalError::UnknownPred(facts[i].0.clone()));
        }
        let ghost d1 = *db;
        proof {
            assert(db0.preds().contains(pred@));
            assert(same_kind(ann_id(db0.rel(pred@).semiring), ann));
            if d1.rel(pred@).view().dom().contains(t) {
                assert(same_kind(ann_id(d1.rel(pred@).semiring), d1.rel(pred@).view()[t]));
            }
        }
        let tup = tuple_copy(&facts[i].1);
        let c = db.insert(pred, tup, ann);
        proof {
            let w = db_view(d1);
            let (m, cc) = combine_view(w[pred@], t, ann);
            assert(w[pred@] == d1.rel(pred@).view());
            assert(cc == c);
            assert(db_view(*db) =~= w.insert(pred@, m)) by {
                assert forall|p: Seq<char>| #[trigger] db_view(*db).dom().contains(p) <==> w.insert(pred@, m).dom().contains(p) by {}
                assert forall|p: Seq<char>| db_view(*db).dom().contains(p) implies #[trigger] db_view(*db)[p] == w.insert(pred@, m)[p] by {
                    if p != pred@ {
                        assert(d1.preds().contains(p));
                    }
                }
            }
            assert forall|p: Seq<char>, u: Seq<GroundVal>| db.preds().contains(p) && #[trigger] db.rel(p).view().dom().contains(u)
                implies same_kind(ann_id(db.rel(p).semiring), db.rel(p).view()[u]) by {
                if p != pred@ {
                    assert(d1.preds().contains(p));
                    assert(d1.rel(p).view().dom().contains(u));
                } else if u != t {
                    assert(d1.rel(p).view().dom().contains(u));
                } else if d1.rel(p).view().dom().contains(t) {
                    assert(same_kind(ann_id(d1.rel(p).semiring), d1.rel(p).view()[t]));
                }
            }
            assert forall|p: Seq<char>| #[trigger] db0.preds().contains(p) implies db.rel(p).semiring == db0.rel(p).semiring by {
                assert(d1.preds().contains(p));
            }
        }
        changed = changed || c;
        i = i + 1;
    }
    Ok(changed)
}

/// A round from `db` derives facts that change nothing.
pub open spec fn is_fixpoint(db: Db, prog: CoreProgram, cur: u32) -> bool {
    round_spec(db, prog, cur) matches Ok(f)
        && apply_spec(db_view(db), f) == Ok::<(Map<Seq<char>, Map<Seq<GroundVal>, Ann>>, bool), ErrV>((db_view(db), false))
}

pub proof fn lemma_prog_ok_shape(a: Db, b: Db, prog: CoreProgram)
    requires
        prog_ok(a, prog),
        same_shape(a, b),
    ensures
        prog_ok(b, prog),
{
    assert forall|i: int| 0 <= i < prog.rules@.len() implies rule_ok(#[trigger] prog.rules@[i]) && rule_typed(b, prog.rules@[i]) by {
        let rule = prog.rules@[i];
        assert(rule_typed(a, rule));
        if b.preds().contains(rule.head.pred@) {
            assert forall|j: int| 0 <= j < rule.body@.len() && #[trigger] rule.body@[j] is Pos
                && b.preds().contains(rule.body@[j]->Pos_0.pred@)
                implies b.rel(rule.body@[j]->Pos_0.pred@).semiring == b.rel(rule.head.pred@).semiring by {
                assert(a.preds().contains(rule.body@[j]->Pos_0.pred@));
                assert(a.preds().contains(rule.head.pred@));
            }
        }
    }
}

proof fn lemma_apply_prefix_unchanged(v: DbV, f: Seq<FactV>, n: nat)
    requires
        n <= f.len(),
        apply_upto(v, f, n) matches Ok((_, ch)) && !ch,
    ensures
        forall|i: int| 0 <= i < n ==> v.dom().contains((#[trigger] f[i]).0) && !combine_view(v[f[i].0], f[i].1, f[i].2).1,
        apply_upto(v, f, n) == Ok::<(DbV, bool), ErrV>((v, false)),
    decreases n,
{
    if n > 0 {
        let (w, ch) = apply_upto(v, f, (n - 1) as nat)->Ok_0;
        assert(!ch);
        lemma_apply_prefix_unchanged(v, f, (n - 1) as nat);
        assert(w == v);
        let (m, c) = combine_view(w[f[n - 1].0], f[n - 1].1, f[n - 1].2);
        assert(!c);
        assert(v.insert(f[n - 1].0, m) =~= v);
    }
}

/// At a fixpoint the database is closed under the stratum's rules: every fact
/// a naive round derives is already held, and none improves the annotation of
/// its tuple.
pub proof fn lemma_fixpoint_closed(db: Db, prog: CoreProgram, cur: u32)
    requires
        is_fixpoint(db, prog, cur),
    ensures
        round_spec(db, prog, cur) matches Ok(f) && forall|i: int| 0 <= i < f.len() ==> {
            let v = db_view(db);
            &&& v.dom().contains((#[trigger] f[i]).0)
            &&& v[f[i].0].dom().contains(f[i].1)
            &&& !ann_oplus(v[f[i].0][f[i].1], f[i].2).1
        },
{
    let f = round_spec(db, prog, cur)->Ok_0;
    let v = db_view(db);
    lemma_apply_prefix_unchanged(v, f, f.len());
    assert forall|i: int| 0 <= i < f.len() implies v.dom().contains((#[trigger] f[i]).0) && v[f[i].0].dom().contains(f[i].1)
        && !ann_oplus(v[f[i].0][f[i].1], f[i].2).1 by {
        assert(!combine_view(v[f[i].0], f[i].1, f[i].2).1);
    }
}

/// A well-formed database with content `s`.
pub open spec fn rep(s: DbS) -> Db {
    choose|d: Db| d.wf() && dbs(d) == s
}

/// Every well-formed database stands for its content.
pub proof fn lemma_rep(db: Db)
    requires
        db.wf(),
    ensures
        alike(rep(dbs(db)), db),
{
    let d = rep(dbs(db));
    assert(d.wf() && dbs(d) == dbs(db));
}

/// One round from content `s` (full, or over delta `d`): its facts combined
/// in, and the next delta.
pub open spec fn step_s(s: DbS, prog: CoreProgram, cur: u32, d: Option<Seq<FactV>>) -> Result<(DbS, Seq<FactV>), ErrV> {
    match round_facts(rep(s), prog, cur, d) {
        Err(e) => Err(e),
        Ok(f) => track_s(s, f),
    }
}

/// How many changing rounds a tropical stratum may take: `universe + 2`.
pub open spec fn cap_of(universe: nat) -> nat {
    if universe > usize::MAX - 2 { usize::MAX as nat } else { universe + 2 }
}

/// Naive rounds from content `s`, `iters` changing rounds done: the first
/// round that changes nothing ends them; a tropical stratum past `cap`
/// changing rounds has a negative-weight cycle.
pub open spec fn sat_from(s: DbS, prog: CoreProgram, cur: u32, is_trop: bool, cap: nat, iters: nat) -> Result<DbS, ErrV>
    decreases usize::MAX - iters,
{
    match round_facts(rep(s), prog, cur, None) {
        Err(e) => Err(e),
        Ok(f) => match apply_s(s, f) {
            Err(e) => Err(e),
            Ok((s2, ch)) => if !ch {
                Ok(s2)
            } else if iters >= usize::MAX {
                Err(ErrV::RoundLimit)
            } else if is_trop && iters + 1 > cap {
                Err(ErrV::NegativeWeightCycle)
            } else {
                sat_from(s2, prog, cur, is_trop, cap, iters + 1)
            },
        },
    }
}

/// The naive saturation of a stratum's non-aggregate rules from content `s`.
pub open spec fn saturation(s: DbS, prog: CoreProgram, cur: u32, is_trop: bool, universe: nat) -> Result<DbS, ErrV> {
    sat_from(s, prog, cur, is_trop, cap_of(universe), 0)
}

/// Delta rounds from content `s` with delta `d`, `iters` rounds done, until
/// the delta is empty.
pub open spec fn semi_from(s: DbS, prog: CoreProgram, cur: u32, is_trop: bool, cap: nat, d: Seq<FactV>, iters: nat) -> Result<DbS, ErrV>
    decreases usize::MAX - iters,
{
    if d.len() == 0 {
        Ok(s)
    } else {
        match step_s(s, prog, cur, Some(d)) {
            Err(e) => Err(e),
            Ok((s2, next)) => if iters >= usize::MAX {
                Err(ErrV::RoundLimit)
            } else if is_trop && iters + 1 > cap {
                Err(ErrV::NegativeWeightCycle)
            } else {
                semi_from(s2, prog, cur, is_trop, cap, next, iters + 1)
            },
        }
    }
}

/// The semi-naive saturation: a full round seeds the delta, then delta
/// rounds.
pub open spec fn semi_saturation(s: DbS, prog: CoreProgram, cur: u32, is_trop: bool, universe: nat) -> Result<DbS, ErrV> {
    match step_s(s, prog, cur, None) {
        Err(e) => Err(e),
        Ok((s2, d)) => semi_from(s2, prog, cur, is_trop, cap_of(universe), d, 0),
    }
}

/// Naive rounds over the stratum's non-aggregate rules until one changes
/// nothing. A tropical stratum still changing after `universe + 2` rounds has
/// a negative-weight cycle.
pub fn saturate_rules(prog: &CoreProgram, db: &mut Db, cur: u32, is_trop: bool, universe: usize) -> (r: Result<(), EvalError>)
    requires
        old(db).wf(),
        db_typed(*old(db)),
        prog_ok(*old(db), *prog),
    ensures
        final(db).wf(),
        db_typed(*final(db)),
        same_shape(*old(db), *final(db)),
        r is Ok ==> exists|d: Db| d.wf() && db_view(d) == db_view(*final(db)) && #[trigger] is_fixpoint(d, *prog, cur),
        r is Ok <==> saturation(dbs(*old(db)), *prog, cur, is_trop, universe as nat) is Ok,
        r is Ok ==> dbs(*final(db)) == saturation(dbs(*old(db)), *prog, cur, is_trop, universe as nat)->Ok_0,
        r matches Err(e) ==> saturation(dbs(*old(db)), *prog, cur, is_trop, universe as nat) == Err::<DbS, ErrV>(ev(e)),
{
    let cap: usize = if universe > usize::MAX - 2 { usize::MAX } else { universe + 2 };
    let ghost db0 = *db;
    let ghost goal = saturation(dbs(db0), *prog, cur, is_trop, universe as nat);
    let mut iters: usize = 0;
    loop
        invariant
            db.wf(),
            db_typed(*db),
            db0 == *old(db),
            same_shape(db0, *db),
            prog_ok(*db, *prog),
            cap == cap_of(universe as nat),
            goal == saturation(dbs(db0), *prog, cur, is_trop, universe as nat),
            sat_from(dbs(*db), *prog, cur, is_trop, cap as nat, iters as nat) == goal,
        decreases usize::MAX - iters,
    {
        proof {
            lemma_rep(*db);
            lemma_round_facts_alike(rep(dbs(*db)), *db, *prog, cur, None);
        }
        let facts = match derive_round(prog, db, cur) {
            Ok(f) => f,
            Err(e) => return Err(e),
        };
        let ghost d1 = *db;
        proof {
            lemma_apply_ok(db_view(d1), facts_v(facts@), facts@.len());
        }
        let changed = match apply_facts(db, &facts) {
            Ok(c) => c,
            Err(e) => {
                assert(false);
                return Err(e);
            },
        };
        proof {
            lemma_prog_ok_shape(d1, *db, *prog);
        }
        if !changed {
            proof {
                lemma_apply_unchanged(db_view(d1), facts_v(facts@), facts@.len());
            }
            assert(is_fixpoint(d1, *prog, cur));
            return Ok(());
        }
        if iters == usize::MAX {
            return Err(EvalError::RoundLimit);
        }
        iters = iters + 1;
        if is_trop && iters > cap {
            return Err(EvalError::NegativeWeightCycle);
        }
    }
}


/// The rows of predicate `p` among the first `k` delta facts, in order.
pub open spec fn pick_upto(d: Seq<FactV>, p: Seq<char>, k: nat) -> Seq<(Seq<GroundVal>, Ann)>
    decreases k,
{
    if k == 0 {
        Seq::empty()
    } else if d[k - 1].0 == p {
        pick_upto(d, p, (k - 1) as nat).push((d[k - 1].1, d[k - 1].2))
    } else {
        pick_upto(d, p, (k - 1) as nat)
    }
}

/// The delta rows of predicate `p`, in order.
pub open spec fn pick(d: Seq<FactV>, p: Seq<char>) -> Seq<(Seq<GroundVal>, Ann)> {
    pick_upto(d, p, d.len())
}

/// `p` heads a non-aggregate rule of the stratum.
pub open spec fn in_idb(prog: CoreProgram, cur: u32, p: Seq<char>) -> bool {
    exists|j: int| 0 <= j < prog.rules@.len() && in_round(#[trigger] prog.rules@[j], cur) && prog.rules@[j].head.pred@ == p
}

/// The literal at `i` takes part in a delta round: a positive literal of a
/// predicate the stratum derives, with rows that changed.
pub open spec fn delta_pos(prog: CoreProgram, cur: u32, rule: CoreRule, d: Seq<FactV>, i: int) -> bool {
    &&& rule.body@[i] is Pos
    &&& in_idb(prog, cur, rule.body@[i]->Pos_0.pred@)
    &&& pick(d, rule.body@[i]->Pos_0.pred@).len() > 0
}

/// The facts a rule derives in a delta round from its first `i` literals:
/// once per delta position, that literal ranging over its delta rows.
pub open spec fn rule_delta_upto(db: Db, prog: CoreProgram, cur: u32, rule: CoreRule, d: Seq<FactV>, i: nat) -> Result<Seq<FactV>, ErrV>
    decreases i,
{
    if i == 0 {
        Ok(Seq::empty())
    } else {
        match rule_delta_upto(db, prog, cur, rule, d, (i - 1) as nat) {
            Err(e) => Err(e),
            Ok(s) => if delta_pos(prog, cur, rule, d, i - 1) {
                match rule_facts_spec(db, prog.predicates@, cur, rule, Some(((i - 1) as int, pick(d, rule.body@[i - 1]->Pos_0.pred@)))) {
                    Err(e) => Err(e),
                    Ok(f) => Ok(s + f),
                }
            } else {
                Ok(s)
            },
        }
    }
}

/// The facts a delta round derives from the first `k` rules.
pub open spec fn delta_round_upto(db: Db, prog: CoreProgram, cur: u32, d: Seq<FactV>, k: nat) -> Result<Seq<FactV>, ErrV>
    decreases k,
{
    if k == 0 {
        Ok(Seq::empty())
    } else {
        match delta_round_upto(db, prog, cur, d, (k - 1) as nat) {
            Err(e) => Err(e),
            Ok(s) => if in_round(prog.rules@[k - 1], cur) {
                match rule_delta_upto(db, prog, cur, prog.rules@[k - 1], d, prog.rules@[k - 1].body@.len()) {
                    Err(e) => Err(e),
                    Ok(f) => Ok(s + f),
                }
            } else {
                Ok(s)
            },
        }
    }
}

/// The facts of a delta round.
pub open spec fn delta_round_spec(db: Db, prog: CoreProgram, cur: u32, d: Seq<FactV>) -> Result<Seq<FactV>, ErrV> {
    delta_round_upto(db, prog, cur, d, prog.rules@.len())
}

/// Every delta fact names a held predicate, with an annotation of its
/// semiring.
pub open spec fn delta_typed(db: Db, d: Seq<(String, Tuple, Ann)>) -> bool {
    &&& facts_typed(db, d)
    &&& forall|i: int| 0 <= i < d.len() ==> db.preds().contains((#[trigger] d[i]).0@)
}

proof fn lemma_pick_nonempty(d: Seq<FactV>, p: Seq<char>, k: nat)
    requires
        k <= d.len(),
        pick_upto(d, p, k).len() > 0,
    ensures
        exists|i: int| 0 <= i < k && (#[trigger] d[i]).0 == p,
    decreases k,
{
    if d[k - 1].0 != p {
        lemma_pick_nonempty(d, p, (k - 1) as nat);
    }
}

proof fn lemma_pick_kind(d: Seq<FactV>, p: Seq<char>, x: Ann, k: nat)
    requires
        k <= d.len(),
        forall|i: int| 0 <= i < d.len() && (#[trigger] d[i]).0 == p ==> same_kind(x, d[i].2),
    ensures
        forall|q: int| 0 <= q < pick_upto(d, p, k).len() ==> same_kind(x, (#[trigger] pick_upto(d, p, k)[q]).1),
    decreases k,
{
    if k > 0 {
        lemma_pick_kind(d, p, x, (k - 1) as nat);
        let prev = pick_upto(d, p, (k - 1) as nat);
        if d[k - 1].0 == p {
            assert(same_kind(x, d[k - 1].2));
            assert forall|q: int| 0 <= q < pick_upto(d, p, k).len() implies same_kind(x, (#[trigger] pick_upto(d, p, k)[q]).1) by {
                if q < prev.len() {
                    assert(pick_upto(d, p, k)[q] == prev[q]);
                }
            }
        }
    }
}

/// The delta rows of `p`, copied out in order.
pub fn pick_rows(d: &Vec<(String, Tuple, Ann)>, p: &str) -> (rows: Vec<(Tuple, Ann)>)
    ensures
        rows_v(rows@) == pick(facts_v(d@), p@),
{
    let ghost dv = facts_v(d@);
    let mut rows: Vec<(Tuple, Ann)> = Vec::new();
    let mut i: usize = 0;
    while i < d.len()
        invariant
            i <= d@.len(),
            dv == facts_v(d@),
            rows_v(rows@) == pick_upto(dv, p@, i as nat),
        decreases d@.len() - i,
    {
        assert(dv[i as int] == (d@[i as int].0@, d@[i as int].1@, d@[i as int].2));
        if crate::text::same_text(d[i].0.as_str(), p) {
            let ghost r0 = rows@;
            let t = tuple_copy(&d[i].1);
            rows.push((t, d[i].2));
            proof {
                assert(rows_v(rows@) =~= rows_v(r0).push((d@[i as int].1@, d@[i as int].2)));
            }
        }
        i = i + 1;
    }
    rows
}

/// Whether `p` heads a non-aggregate rule of the stratum.
pub fn idb_has(prog: &CoreProgram, cur: u32, p: &str) -> (b: bool)
    ensures
        b == in_idb(*prog, cur, p@),
{
    let mut j: usize = 0;
    while j < prog.rules.len()
        invariant
            j <= prog.rules@.len(),
            forall|x: int| 0 <= x < j ==> !(in_round(#[trigger] prog.rules@[x], cur) && prog.rules@[x].head.pred@ == p@),
        decreases prog.rules@.len() - j,
    {
        let rule = &prog.rules[j];
        if rule.stratum == cur && !is_aggregate_rule(rule) && crate::text::same_text(rule.head.pred.as_str(), p) {
            return true;
        }
        j = j + 1;
    }
    false
}

proof fn lemma_rule_delta_err_extends(db: Db, prog: CoreProgram, cur: u32, rule: CoreRule, d: Seq<FactV>, k: nat, n: nat)
    requires
        k <= n,
        rule_delta_upto(db, prog, cur, rule, d, k) is Err,
    ensures
        rule_delta_upto(db, prog, cur, rule, d, n) == rule_delta_upto(db, prog, cur, rule, d, k),
    decreases n - k,
{
    if k < n {
        lemma_rule_delta_err_extends(db, prog, cur, rule, d, k, (n - 1) as nat);
    }
}

proof fn lemma_delta_round_err_extends(db: Db, prog: CoreProgram, cur: u32, d: Seq<FactV>, k: nat, n: nat)
    requires
        k <= n,
        delta_round_upto(db, prog, cur, d, k) is Err,
    ensures
        delta_round_upto(db, prog, cur, d, n) == delta_round_upto(db, prog, cur, d, k),
    decreases n - k,
{
    if k < n {
        lemma_delta_round_err_extends(db, prog, cur, d, k, (n - 1) as nat);
    }
}

/// The facts of a delta round.
pub fn derive_delta_round(prog: &CoreProgram, db: &Db, cur: u32, delta: &Vec<(String, Tuple, Ann)>) -> (r: Result<Vec<(String, Tuple, Ann)>, EvalError>)
    requires
        db.wf(),
        db_typed(*db),
        prog_ok(*db, *prog),
        delta_typed(*db, delta@),
    ensures
        match r {
            Ok(f) => delta_round_spec(*db, *prog, cur, facts_v(delta@)) == Ok::<Seq<FactV>, ErrV>(facts_v(f@)) && facts_typed(*db, f@)
                && forall|i: int| 0 <= i < f@.len() ==> db.preds().contains((#[trigger] facts_v(f@)[i]).0),
            Err(e) => delta_round_spec(*db, *prog, cur, facts_v(delta@)) == Err::<Seq<FactV>, ErrV>(ev(e)),
        },
{
    let ghost dv = facts_v(delta@);
    let mut out: Vec<(String, Tuple, Ann)> = Vec::new();
    let mut k: usize = 0;
    assert(facts_v(out@) =~= Seq::<FactV>::empty());
    while k < prog.rules.len()
        invariant
            k <= prog.rules@.len(),
            dv == facts_v(delta@),
            db.wf(),
            db_typed(*db),
            prog_ok(*db, *prog),
            delta_typed(*db, delta@),
            delta_round_upto(*db, *prog, cur, dv, k as nat) == Ok::<Seq<FactV>, ErrV>(facts_v(out@)),
            facts_typed(*db, out@),
            forall|i: int| 0 <= i < out@.len() ==> db.preds().contains((#[trigger] facts_v(out@)[i]).0),
        decreases prog.rules@.len() - k,
    {
        let rule = &prog.rules[k];
        assert(rule_ok(*rule) && rule_typed(*db, *rule));
        if rule.stratum == cur && !is_aggregate_rule(rule) {
            let ghost before = out@;
            let mut i: usize = 0;
            assert(facts_v(out@).skip(before.len() as int) =~= Seq::<FactV>::empty());
            assert(facts_v(out@).take(before.len() as int) =~= facts_v(before));
            while i < rule.body.len()
                invariant
                    i <= rule.body@.len(),
                    rule == &prog.rules@[k as int],
                    k < prog.rules@.len(),
                    in_round(*rule, cur),
                    dv == facts_v(delta@),
                    db.wf(),
                    db_typed(*db),
                    prog_ok(*db, *prog),
                    rule_ok(*rule) && rule_typed(*db, *rule),
                    delta_typed(*db, delta@),
                    before.len() <= out@.len(),
                    delta_round_upto(*db, *prog, cur, dv, k as nat) == Ok::<Seq<FactV>, ErrV>(facts_v(before)),
                    facts_v(out@).take(before.len() as int) == facts_v(before),
                    rule_delta_upto(*db, *prog, cur, *rule, dv, i as nat) == Ok::<Seq<FactV>, ErrV>(facts_v(out@).skip(before.len() as int)),
                    facts_typed(*db, out@),
                    forall|x: int| 0 <= x < out@.len() ==> db.preds().contains((#[trigger] facts_v(out@)[x]).0),
                decreases rule.body@.len() - i,
            {
                let mut used = false;
                if let CoreLiteral::Pos(atom) = &rule.body[i] {
                    if idb_has(prog, cur, atom.pred.as_str()) {
                        let rows_owned = pick_rows(delta, atom.pred.as_str());
                        let rows = &rows_owned;
                        {
                            if rows.len() > 0 {
                                used = true;
                                assert(rows_v(rows@).len() == rows@.len());
                                assert(delta_pos(*prog, cur, *rule, dv, i as int));
                                proof {
                                    lemma_pick_nonempty(dv, atom.pred@, dv.len());
                                    let j0 = choose|j: int| 0 <= j < dv.len() && (#[trigger] dv[j]).0 == atom.pred@;
                                    assert(dv[j0].0 == delta@[j0].0@);
                                    assert(db.preds().contains(atom.pred@));
                                    if db.preds().contains(rule.head.pred@) {
                                        assert(rule.body@[i as int] is Pos);
                                        assert(db.rel(atom.pred@).semiring == db.rel(rule.head.pred@).semiring);
                                        let x = ann_id(db.rel(rule.head.pred@).semiring);
                                        assert forall|j: int| 0 <= j < dv.len() && (#[trigger] dv[j]).0 == atom.pred@ implies same_kind(x, dv[j].2) by {
                                            assert(dv[j] == (delta@[j].0@, delta@[j].1@, delta@[j].2));
                                        }
                                        lemma_pick_kind(dv, atom.pred@, x, dv.len());
                                    }
                                }
                                let ghost f0 = out@;
                                match derive_rule(db, &prog.predicates, cur, rule, Some((i, rows)), &mut out) {
                                    Ok(()) => {
                                        proof {
                                            let sk = facts_v(out@).skip(f0.len() as int);
                                            assert(facts_v(out@) =~= facts_v(out@).take(f0.len() as int) + sk);
                                            assert(facts_v(out@).take(f0.len() as int) =~= facts_v(f0));
                                            assert(facts_v(out@).skip(before.len() as int) =~= facts_v(f0).skip(before.len() as int) + sk);
                                            assert(facts_v(out@).take(before.len() as int) =~= facts_v(f0).take(before.len() as int));
                                            assert forall|x: int| 0 <= x < out@.len() && db.preds().contains((#[trigger] out@[x]).0@)
                                                implies same_kind(ann_id(db.rel(out@[x].0@).semiring), out@[x].2) by {
                                                if x < f0.len() {
                                                    assert(facts_v(out@)[x] == facts_v(f0)[x]);
                                                    assert(out@[x].2 == f0[x].2 && out@[x].0@ == f0[x].0@);
                                                }
                                            }
                                            assert forall|x: int| 0 <= x < out@.len() implies db.preds().contains((#[trigger] facts_v(out@)[x]).0) by {
                                                if x < f0.len() {
                                                    assert(facts_v(out@)[x] == facts_v(f0)[x]);
                                                } else {
                                                    assert(facts_v(out@)[x].0 == out@[x].0@);
                                                }
                                            }
                                        }
                                    },
                                    Err(err) => {
                                        proof {
                                            assert(rows_v(rows@) == pick(dv, atom.pred@));
                                            assert(rule_delta_upto(*db, *prog, cur, *rule, dv, (i + 1) as nat) is Err);
                                            lemma_rule_delta_err_extends(*db, *prog, cur, *rule, dv, (i + 1) as nat, rule.body@.len());
                                            lemma_delta_round_err_extends(*db, *prog, cur, dv, (k + 1) as nat, prog.rules@.len());
                                        }
                                        return Err(err);
                                    },
                                }
                            }
                        }
                    }
                }
                if !used {
                    assert(!delta_pos(*prog, cur, *rule, dv, i as int));
                }
                i = i + 1;
            }
            proof {
                assert(facts_v(out@) =~= facts_v(before) + facts_v(out@).skip(before.len() as int)) by {
                    assert(facts_v(out@) =~= facts_v(out@).take(before.len() as int) + facts_v(out@).skip(before.len() as int));
                }
            }
        }
        k = k + 1;
    }
    Ok(out)
}


/// A database by content.
pub type DbV = Map<Seq<char>, Map<Seq<GroundVal>, Ann>>;

/// `b` strictly improves on `a`: both tropical, `b`'s weight below `a`'s.
pub open spec fn improves(a: Ann, b: Ann) -> bool {
    a is W && b is W && weight_lt(b->W_0, a->W_0)
}

/// Tuple `t` of `p` is in `v1`, and new or changed since `v0`.
pub open spec fn changed_in(v0: DbV, v1: DbV, p: Seq<char>, t: Seq<GroundVal>) -> bool {
    &&& v1.dom().contains(p) && v1[p].dom().contains(t)
    &&& !(v0.dom().contains(p) && v0[p].dom().contains(t) && v0[p][t] == v1[p][t])
}

/// The next delta: each tuple that changed from `v0` to `v1` once, with its
/// annotation in `v1`.
pub open spec fn next_delta(v0: DbV, v1: DbV, n: Seq<(String, Tuple, Ann)>) -> bool {
    &&& forall|i: int| 0 <= i < n.len() ==> changed_in(v0, v1, (#[trigger] n[i]).0@, n[i].1@) && n[i].2 == v1[n[i].0@][n[i].1@]
    &&& forall|p: Seq<char>, t: Seq<GroundVal>| #[trigger] changed_in(v0, v1, p, t) ==> exists|i: int| 0 <= i < n.len() && (#[trigger] n[i]).0@ == p && n[i].1@ == t
    &&& forall|i: int, j: int| 0 <= i < j < n.len() ==> !((#[trigger] n[i]).0@ == (#[trigger] n[j]).0@ && n[i].1@ == n[j].1@)
}

/// A key recorded as changed.
pub open spec fn key_in(keys: Seq<(String, Tuple)>, p: Seq<char>, t: Seq<GroundVal>) -> bool {
    exists|k: int| 0 <= k < keys.len() && (#[trigger] keys[k]).0@ == p && keys[k].1@ == t
}

/// The recorded keys are exactly the tuples changed from `v0` to `w`.
pub open spec fn keys_ok(v0: DbV, w: DbV, keys: Seq<(String, Tuple)>) -> bool {
    &&& forall|k: int| 0 <= k < keys.len() ==> w.dom().contains((#[trigger] keys[k]).0@) && w[keys[k].0@].dom().contains(keys[k].1@)
        && (v0[keys[k].0@].dom().contains(keys[k].1@) ==> improves(v0[keys[k].0@][keys[k].1@], w[keys[k].0@][keys[k].1@]))
    &&& forall|p: Seq<char>, t: Seq<GroundVal>| w.dom().contains(p) && !key_in(keys, p, t) ==>
        (#[trigger] w[p].dom().contains(t) <==> v0[p].dom().contains(t)) && (w[p].dom().contains(t) ==> w[p][t] == v0[p][t])
    &&& forall|i: int, j: int| 0 <= i < j < keys.len() ==> !((#[trigger] keys[i]).0@ == (#[trigger] keys[j]).0@ && keys[i].1@ == keys[j].1@)
}

/// Whether the key is recorded.
pub fn key_index(keys: &Vec<(String, Tuple)>, p: &str, t: &Tuple) -> (b: bool)
    ensures
        b == key_in(keys@, p@, t@),
{
    let mut k: usize = 0;
    while k < keys.len()
        invariant
            k <= keys@.len(),
            forall|x: int| 0 <= x < k ==> !((#[trigger] keys@[x]).0@ == p@ && keys@[x].1@ == t@),
        decreases keys@.len() - k,
    {
        if crate::text::same_text(keys[k].0.as_str(), p) && crate::eval::store::same_tuple(&keys[k].1, t) {
            return true;
        }
        k = k + 1;
    }
    false
}

/// `⊕`-combine the facts into the database in order, and return each tuple
/// that changed once, with its new annotation.
pub fn apply_tracked(db: &mut Db, facts: &Vec<(String, Tuple, Ann)>) -> (r: Result<Vec<(String, Tuple, Ann)>, EvalError>)
    requires
        old(db).wf(),
        db_typed(*old(db)),
        facts_typed(*old(db), facts@),
    ensures
        final(db).wf(),
        db_typed(*final(db)),
        same_shape(*old(db), *final(db)),
        match r {
            Ok(next) => (apply_spec(db_view(*old(db)), facts_v(facts@)) matches Ok((v, _)) && v == db_view(*final(db)))
                && next_delta(db_view(*old(db)), db_view(*final(db)), next@)
                && delta_typed(*final(db), next@),
            Err(e) => apply_spec(db_view(*old(db)), facts_v(facts@)) == Err::<(DbV, bool), ErrV>(ev(e)),
        },
        match r {
            Ok(next) => track_s(dbs(*old(db)), facts_v(facts@)) == Ok::<(DbS, Seq<FactV>), ErrV>((dbs(*final(db)), facts_v(next@))),
            Err(e) => track_s(dbs(*old(db)), facts_v(facts@)) == Err::<(DbS, Seq<FactV>), ErrV>(ev(e)),
        },
{
    let ghost db0 = *db;
    let ghost v0 = db_view(db0);
    let ghost fv = facts_v(facts@);
    let mut changed = false;
    let mut keys: Vec<(String, Tuple)> = Vec::new();
    let mut i: usize = 0;
    assert(keys_ok(v0, db_view(*db), keys@)) by {
        assert forall|p: Seq<char>, t: Seq<GroundVal>| db_view(*db).dom().contains(p) && !key_in(keys@, p, t) implies
            (#[trigger] db_view(*db)[p].dom().contains(t) <==> v0[p].dom().contains(t)) && (db_view(*db)[p].dom().contains(t) ==> db_view(*db)[p][t] == v0[p][t]) by {}
    }
    assert(keys_v(keys@) =~= Seq::<(Seq<char>, Seq<GroundVal>)>::empty());
    while i < facts.len()
        invariant
            i <= facts@.len(),
            fv == facts_v(facts@),
            db0 == *old(db),
            v0 == db_view(db0),
            db.wf(),
            db_typed(*db),
            same_shape(db0, *db),
            facts_typed(db0, facts@),
            apply_upto(v0, fv, i as nat) == Ok::<(DbV, bool), ErrV>((db_view(*db), changed)),
            keys_ok(v0, db_view(*db), keys@),
            track_upto(dbs(db0), fv, i as nat) == Ok::<(DbS, Seq<(Seq<char>, Seq<GroundVal>)>), ErrV>((dbs(*db), keys_v(keys@))),
        decreases facts@.len() - i,
    {
        let pred = facts[i].0.as_str();
        let ann = facts[i].2;
        let ghost t = facts@[i as int].1@;
        assert(fv[i as int] == (pred@, t, ann));
        if db.relation(pred).is_none() {
            proof {
                assert(!db_view(*db).dom().contains(pred@));
                lemma_apply_err_extends(v0, fv, (i + 1) as nat, fv.len());
                assert(!dbs(*db).dom().contains(pred@));
                lemma_track_err_extends(dbs(db0), fv, (i + 1) as nat, fv.len());
            }
            return Err(EvalError::UnknownPred(facts[i].0.clone()));
        }
        let ghost d1 = *db;
        let ghost w = db_view(d1);
        proof {
            assert(db0.preds().contains(pred@));
            assert(same_kind(ann_id(db0.rel(pred@).semiring), ann));
            if d1.rel(pred@).view().dom().contains(t) {
                assert(same_kind(ann_id(d1.rel(pred@).semiring), d1.rel(pred@).view()[t]));
            }
        }
        let tup = tuple_copy(&facts[i].1);
        let c = db.insert(pred, tup, ann);
        let ghost m = combine_view(w[pred@], t, ann).0;
        proof {
            assert(w[pred@] == d1.rel(pred@).view());
            assert(combine_view(w[pred@], t, ann).1 == c);
            assert(db_view(*db) =~= w.insert(pred@, m)) by {
                assert forall|p: Seq<char>| #[trigger] db_view(*db).dom().contains(p) <==> w.insert(pred@, m).dom().contains(p) by {}
                assert forall|p: Seq<char>| db_view(*db).dom().contains(p) implies #[trigger] db_view(*db)[p] == w.insert(pred@, m)[p] by {
                    if p != pred@ {
                        assert(d1.preds().contains(p));
                    }
                }
            }
            assert forall|p: Seq<char>, u: Seq<GroundVal>| db.preds().contains(p) && #[trigger] db.rel(p).view().dom().contains(u)
                implies same_kind(ann_id(db.rel(p).semiring), db.rel(p).view()[u]) by {
                if p != pred@ {
                    assert(d1.preds().contains(p));
                    assert(d1.rel(p).view().dom().contains(u));
                } else if u != t {
                    assert(d1.rel(p).view().dom().contains(u));
                } else if d1.rel(p).view().dom().contains(t) {
                    assert(same_kind(ann_id(d1.rel(p).semiring), d1.rel(p).view()[t]));
                }
            }
            assert forall|p: Seq<char>| #[trigger] db0.preds().contains(p) implies db.rel(p).semiring == db0.rel(p).semiring by {
                assert(d1.preds().contains(p));
            }
        }
        let ghost k0 = keys@;
        let ghost s_before = dbs(d1);
        proof {
            assert(key_in(k0, pred@, t) <==> keys_v(k0).contains((pred@, t))) by {
                if key_in(k0, pred@, t) {
                    let kk = choose|kk: int| 0 <= kk < k0.len() && (#[trigger] k0[kk]).0@ == pred@ && k0[kk].1@ == t;
                    assert(keys_v(k0)[kk] == (pred@, t));
                }
                if keys_v(k0).contains((pred@, t)) {
                    let kk = choose|kk: int| 0 <= kk < keys_v(k0).len() && keys_v(k0)[kk] == (pred@, t);
                    assert(k0[kk].0@ == pred@ && k0[kk].1@ == t);
                }
            }
        }
        if c {
            let known = key_index(&keys, pred, &facts[i].1);
            if !known {
                let kt = tuple_copy(&facts[i].1);
                keys.push((facts[i].0.clone(), kt));
            }
        }
        proof {
            let w1 = db_view(*db);
            assert(w1.dom() =~= w.dom());
            // recorded keys
            assert forall|k: int| 0 <= k < keys@.len() implies w1.dom().contains((#[trigger] keys@[k]).0@) && w1[keys@[k].0@].dom().contains(keys@[k].1@)
                && (v0[keys@[k].0@].dom().contains(keys@[k].1@) ==> improves(v0[keys@[k].0@][keys@[k].1@], w1[keys@[k].0@][keys@[k].1@])) by {
                let q = keys@[k].0@;
                let u = keys@[k].1@;
                if k < k0.len() {
                    assert(keys@[k] == k0[k]);
                    assert(w.dom().contains(q) && w[q].dom().contains(u));
                    if q == pred@ && u == t && c {
                        assert(w[q].dom().contains(t));
                    }
                } else {
                    assert(q == pred@ && u == t);
                    assert(!key_in(k0, pred@, t));
                    assert(w.dom().contains(pred@));
                    assert(w[pred@].dom().contains(t) <==> v0[pred@].dom().contains(t));
                }
            }
            assert forall|p: Seq<char>, u: Seq<GroundVal>| w1.dom().contains(p) && !key_in(keys@, p, u) implies
                (#[trigger] w1[p].dom().contains(u) <==> v0[p].dom().contains(u)) && (w1[p].dom().contains(u) ==> w1[p][u] == v0[p][u]) by {
                if key_in(k0, p, u) {
                    let kk = choose|kk: int| 0 <= kk < k0.len() && (#[trigger] k0[kk]).0@ == p && k0[kk].1@ == u;
                    assert(keys@[kk] == k0[kk]);
                }
                if c && p == pred@ && u == t {
                    if key_in(k0, pred@, t) {
                    } else {
                        assert(keys@[keys@.len() - 1].0@ == pred@ && keys@[keys@.len() - 1].1@ == t);
                    }
                }
            }
            assert forall|a: int, b: int| 0 <= a < b < keys@.len() implies !((#[trigger] keys@[a]).0@ == (#[trigger] keys@[b]).0@ && keys@[a].1@ == keys@[b].1@) by {
                if b < k0.len() {
                    assert(keys@[a] == k0[a] && keys@[b] == k0[b]);
                } else {
                    assert(keys@[a] == k0[a]);
                    if keys@[a].0@ == keys@[b].0@ && keys@[a].1@ == keys@[b].1@ {
                        assert(key_in(k0, pred@, t));
                    }
                }
            }
        }
        proof {
            let nk = if c && !keys_v(k0).contains((pred@, t)) { keys_v(k0).push((pred@, t)) } else { keys_v(k0) };
            assert(keys_v(keys@) =~= nk);
            assert(s_before.dom().contains(pred@));
        }
        changed = changed || c;
        i = i + 1;
    }
    // the next delta: each recorded key with its annotation now
    let ghost v1 = db_view(*db);
    let mut next: Vec<(String, Tuple, Ann)> = Vec::new();
    let mut k: usize = 0;
    assert(facts_v(next@) =~= next_of(dbs(*db), keys_v(keys@)).take(0));
    while k < keys.len()
        invariant
            k <= keys@.len(),
            db.wf(),
            db_typed(*db),
            v1 == db_view(*db),
            track_upto(dbs(db0), fv, fv.len()) == Ok::<(DbS, Seq<(Seq<char>, Seq<GroundVal>)>), ErrV>((dbs(*db), keys_v(keys@))),
            facts_v(next@) == next_of(dbs(*db), keys_v(keys@)).take(k as int),
            keys_ok(v0, v1, keys@),
            next@.len() == k,
            forall|x: int| 0 <= x < k ==> (#[trigger] next@[x]).0@ == keys@[x].0@ && next@[x].1@ == keys@[x].1@
                && next@[x].2 == v1[keys@[x].0@][keys@[x].1@],
        decreases keys@.len() - k,
    {
        let p = keys[k].0.as_str();
        let rel = match db.relation(p) {
            Some(rel) => rel,
            None => {
                assert(false);
                return Err(EvalError::UnknownPred(keys[k].0.clone()));
            },
        };
        let idx = match rel.find(&keys[k].1) {
            Some(idx) => idx,
            None => {
                assert(false);
                return Err(EvalError::UnknownPred(keys[k].0.clone()));
            },
        };
        proof {
            lemma_row_in_view(*db, p@, idx as int);
        }
        let ann = rel.rows[idx].1;
        let kt = tuple_copy(&keys[k].1);
        let ghost n0 = facts_v(next@);
        next.push((keys[k].0.clone(), kt, ann));
        proof {
            let sc = dbs(*db);
            let kv = keys_v(keys@);
            assert(kv[k as int] == (p@, keys@[k as int].1@));
            assert(sc[p@].2 == rows_v(db.rel(p@).rows@));
            assert(ann_in(sc, p@, keys@[k as int].1@) == ann);
            assert(facts_v(next@) =~= next_of(sc, kv).take(k + 1));
        }
        k = k + 1;
    }
    proof {
        assert forall|x: int| 0 <= x < next@.len() implies changed_in(v0, v1, (#[trigger] next@[x]).0@, next@[x].1@) && next@[x].2 == v1[next@[x].0@][next@[x].1@] by {
            let q = keys@[x].0@;
            let u = keys@[x].1@;
            assert(v1.dom().contains(q) && v1[q].dom().contains(u));
            if v0.dom().contains(q) && v0[q].dom().contains(u) {
                assert(improves(v0[q][u], v1[q][u]));
            }
        }
        assert forall|p: Seq<char>, t: Seq<GroundVal>| #[trigger] changed_in(v0, v1, p, t) implies exists|x: int| 0 <= x < next@.len() && (#[trigger] next@[x]).0@ == p && next@[x].1@ == t by {
            if !key_in(keys@, p, t) {
                assert(v1[p].dom().contains(t) <==> v0[p].dom().contains(t));
                assert(v0.dom() =~= v1.dom());
            }
            let kk = choose|kk: int| 0 <= kk < keys@.len() && (#[trigger] keys@[kk]).0@ == p && keys@[kk].1@ == t;
            assert(next@[kk].0@ == p && next@[kk].1@ == t);
        }
        assert forall|a: int, b: int| 0 <= a < b < next@.len() implies !((#[trigger] next@[a]).0@ == (#[trigger] next@[b]).0@ && next@[a].1@ == next@[b].1@) by {
            assert(!((keys@[a]).0@ == (keys@[b]).0@ && keys@[a].1@ == keys@[b].1@));
        }
        assert forall|x: int| 0 <= x < next@.len() && db.preds().contains((#[trigger] next@[x]).0@)
            implies same_kind(ann_id(db.rel(next@[x].0@).semiring), next@[x].2) by {
            assert(v1[next@[x].0@] == db.rel(next@[x].0@).view());
        }
        assert forall|x: int| 0 <= x < next@.len() implies db.preds().contains((#[trigger] next@[x]).0@) by {
            assert(v1.dom().contains(keys@[x].0@));
        }
    }
    assert(next_of(dbs(*db), keys_v(keys@)).take(keys@.len() as int) =~= next_of(dbs(*db), keys_v(keys@)));
    Ok(next)
}


/// The facts of one round: the naive round without a delta, the delta round
/// with one.
pub open spec fn round_facts(db: Db, prog: CoreProgram, cur: u32, d: Option<Seq<FactV>>) -> Result<Seq<FactV>, ErrV> {
    match d {
        None => round_spec(db, prog, cur),
        Some(dv) => delta_round_spec(db, prog, cur, dv),
    }
}

pub open spec fn opt_facts_v(delta: Option<&Vec<(String, Tuple, Ann)>>) -> Option<Seq<FactV>> {
    match delta {
        Some(d) => Some(facts_v(d@)),
        None => None,
    }
}

/// Evaluate one round and apply it, returning the tuples that changed with
/// their new annotations. Without a delta every non-aggregate rule of the
/// stratum runs over the whole database; with one, each rule runs once per
/// positive literal of a predicate the stratum derives that has changed rows,
/// that literal ranging over them.
pub fn apply_round(prog: &CoreProgram, db: &mut Db, cur: u32, delta: Option<&Vec<(String, Tuple, Ann)>>) -> (r: Result<Vec<(String, Tuple, Ann)>, EvalError>)
    requires
        old(db).wf(),
        db_typed(*old(db)),
        prog_ok(*old(db), *prog),
        delta matches Some(d) ==> delta_typed(*old(db), d@),
    ensures
        final(db).wf(),
        db_typed(*final(db)),
        same_shape(*old(db), *final(db)),
        match r {
            Ok(next) => round_facts(*old(db), *prog, cur, opt_facts_v(delta)) matches Ok(f)
                && (apply_spec(db_view(*old(db)), f) matches Ok((v, _)) && v == db_view(*final(db)))
                && next_delta(db_view(*old(db)), db_view(*final(db)), next@)
                && delta_typed(*final(db), next@),
            Err(e) => round_facts(*old(db), *prog, cur, opt_facts_v(delta)) == Err::<Seq<FactV>, ErrV>(ev(e))
                && *final(db) == *old(db),
        },
        match r {
            Ok(next) => step_s(dbs(*old(db)), *prog, cur, opt_facts_v(delta)) == Ok::<(DbS, Seq<FactV>), ErrV>((dbs(*final(db)), facts_v(next@))),
            Err(e) => step_s(dbs(*old(db)), *prog, cur, opt_facts_v(delta)) == Err::<(DbS, Seq<FactV>), ErrV>(ev(e)),
        },
{
    proof {
        lemma_rep(*db);
        lemma_round_facts_alike(rep(dbs(*db)), *db, *prog, cur, opt_facts_v(delta));
    }
    let facts = match delta {
        None => match derive_round(prog, db, cur) {
            Ok(f) => f,
            Err(e) => return Err(e),
        },
        Some(d) => match derive_delta_round(prog, db, cur, d) {
            Ok(f) => f,
            Err(e) => return Err(e),
        },
    };
    proof {
        lemma_apply_ok(db_view(*db), facts_v(facts@), facts@.len());
    }
    match apply_tracked(db, &facts) {
        Ok(next) => Ok(next),
        Err(e) => {
            assert(false);
            Err(e)
        },
    }
}

/// A round from `d` (full, or delta `dl`) derives facts that change nothing.
pub open spec fn quiet_round(d: Db, prog: CoreProgram, cur: u32, dl: Option<Seq<FactV>>) -> bool {
    round_facts(d, prog, cur, dl) matches Ok(f)
        && (apply_spec(db_view(d), f) matches Ok((v, _)) && v == db_view(d))
}

proof fn lemma_empty_delta_unchanged(v0: DbV, v1: DbV, f: Seq<FactV>, n: Seq<(String, Tuple, Ann)>)
    requires
        apply_spec(v0, f) matches Ok((v, _)) && v == v1,
        next_delta(v0, v1, n),
        n.len() == 0,
    ensures
        v1 == v0,
{
    lemma_apply_grows(v0, f, f.len());
    assert(v1.dom() == v0.dom());
    assert forall|p: Seq<char>| v0.dom().contains(p) implies #[trigger] v1[p] == v0[p] by {
        assert forall|t: Seq<GroundVal>| v1[p].dom().contains(t) <==> v0[p].dom().contains(t) by {
            if v1[p].dom().contains(t) && !v0[p].dom().contains(t) {
                assert(changed_in(v0, v1, p, t));
            }
        }
        assert forall|t: Seq<GroundVal>| v1[p].dom().contains(t) implies v1[p][t] == v0[p][t] by {
            if v1[p][t] != v0[p][t] {
                assert(changed_in(v0, v1, p, t));
            }
        }
        assert(v1[p] =~= v0[p]);
    }
    assert(v1 =~= v0);
}

/// Semi-naive rounds over the stratum's non-aggregate rules: a full round
/// seeds the delta, then delta rounds run until one changes nothing. A
/// tropical stratum still changing after `universe + 2` delta rounds has a
/// negative-weight cycle.
pub fn saturate_rules_semi_naive(prog: &CoreProgram, db: &mut Db, cur: u32, is_trop: bool, universe: usize) -> (r: Result<(), EvalError>)
    requires
        old(db).wf(),
        db_typed(*old(db)),
        prog_ok(*old(db), *prog),
    ensures
        final(db).wf(),
        db_typed(*final(db)),
        same_shape(*old(db), *final(db)),
        r matches Err(e) ==> (exists|d: Option<Seq<FactV>>| #[trigger] round_facts(*final(db), *prog, cur, d) == Err::<Seq<FactV>, ErrV>(ev(e)))
            || (e is NegativeWeightCycle && is_trop)
            || e is RoundLimit,
        r is Ok ==> exists|d: Db, dl: Option<Seq<FactV>>| d.wf() && db_view(d) == db_view(*final(db)) && #[trigger] quiet_round(d, *prog, cur, dl),
        r is Ok <==> semi_saturation(dbs(*old(db)), *prog, cur, is_trop, universe as nat) is Ok,
        r is Ok ==> dbs(*final(db)) == semi_saturation(dbs(*old(db)), *prog, cur, is_trop, universe as nat)->Ok_0,
        r matches Err(e) ==> semi_saturation(dbs(*old(db)), *prog, cur, is_trop, universe as nat) == Err::<DbS, ErrV>(ev(e)),
{
    let cap: usize = if universe > usize::MAX - 2 { usize::MAX } else { universe + 2 };
    let ghost db0 = *db;
    let ghost goal = semi_saturation(dbs(db0), *prog, cur, is_trop, universe as nat);
    let mut delta = match apply_round(prog, db, cur, None) {
        Ok(d) => d,
        Err(e) => {
            assert(round_facts(*db, *prog, cur, None) == Err::<Seq<FactV>, ErrV>(ev(e)));
            return Err(e);
        },
    };
    proof {
        lemma_prog_ok_shape(db0, *db, *prog);
        if delta@.len() == 0 {
            let f = round_facts(db0, *prog, cur, None)->Ok_0;
            lemma_empty_delta_unchanged(db_view(db0), db_view(*db), f, delta@);
            assert(quiet_round(db0, *prog, cur, None));
        }
    }
    let mut iters: usize = 0;
    while delta.len() > 0
        invariant
            db.wf(),
            db_typed(*db),
            db0 == *old(db),
            same_shape(db0, *db),
            prog_ok(*db, *prog),
            delta_typed(*db, delta@),
            delta@.len() == 0 ==> exists|d: Db, dl: Option<Seq<FactV>>| d.wf() && db_view(d) == db_view(*db) && #[trigger] quiet_round(d, *prog, cur, dl),
            cap == cap_of(universe as nat),
            goal == semi_saturation(dbs(db0), *prog, cur, is_trop, universe as nat),
            semi_from(dbs(*db), *prog, cur, is_trop, cap as nat, facts_v(delta@), iters as nat) == goal,
        decreases usize::MAX - iters,
    {
        let ghost d1 = *db;
        let ghost dl1 = Some(facts_v(delta@));
        let next = match apply_round(prog, db, cur, Some(&delta)) {
            Ok(d) => d,
            Err(e) => {
                assert(round_facts(*db, *prog, cur, Some(facts_v(delta@))) == Err::<Seq<FactV>, ErrV>(ev(e)));
                return Err(e);
            },
        };
        proof {
            lemma_prog_ok_shape(d1, *db, *prog);
            if next@.len() == 0 {
                let f = round_facts(d1, *prog, cur, dl1)->Ok_0;
                lemma_empty_delta_unchanged(db_view(d1), db_view(*db), f, next@);
                assert(quiet_round(d1, *prog, cur, dl1));
            }
        }
        delta = next;
        if iters == usize::MAX {
            return Err(EvalError::RoundLimit);
        }
        iters = iters + 1;
        if is_trop && iters > cap {
            return Err(EvalError::NegativeWeightCycle);
        }
    }
    Ok(())
}


/// `w` keeps every tuple of `v`, each with its annotation or a strictly
/// better one.
pub open spec fn grows(v: DbV, w: DbV) -> bool {
    &&& w.dom() == v.dom()
    &&& forall|p: Seq<char>, t: Seq<GroundVal>| v.dom().contains(p) && #[trigger] v[p].dom().contains(t)
        ==> w[p].dom().contains(t) && (w[p][t] == v[p][t] || improves(v[p][t], w[p][t]))
}

/// Applying facts only adds tuples and improves annotations: no tuple is lost
/// and no annotation gets worse.
pub proof fn lemma_apply_grows(v: DbV, f: Seq<FactV>, k: nat)
    requires
        k <= f.len(),
        apply_upto(v, f, k) is Ok,
    ensures
        grows(v, apply_upto(v, f, k)->Ok_0.0),
    decreases k,
{
    if k > 0 {
        let (w, _) = apply_upto(v, f, (k - 1) as nat)->Ok_0;
        lemma_apply_grows(v, f, (k - 1) as nat);
        let p0 = f[k - 1].0;
        let (m, c) = combine_view(w[p0], f[k - 1].1, f[k - 1].2);
        let w1 = w.insert(p0, m);
        assert(w1.dom() =~= w.dom());
        assert forall|p: Seq<char>, t: Seq<GroundVal>| v.dom().contains(p) && #[trigger] v[p].dom().contains(t)
            implies w1[p].dom().contains(t) && (w1[p][t] == v[p][t] || improves(v[p][t], w1[p][t])) by {
            assert(w[p].dom().contains(t));
            if p == p0 && t == f[k - 1].1 && c {
                assert(w[p].dom().contains(t));
                assert(improves(w[p][t], m[t]));
            }
        }
    }
}

} // verus!
