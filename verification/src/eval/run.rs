//! Running a program to its fixpoint: the database of its declared predicates
//! seeded with the EDB, then each stratum in order, its aggregate rules once
//! and then rounds of its other rules, naive or semi-naive, until a round
//! changes nothing.
use vstd::prelude::*;
use crate::eval::coreir::{CorePred, CoreProgram, is_aggregate_rule, is_aggregate_rule_spec};
use crate::eval::naive::{add_units_s, agg_rule_spec, eval_aggregate_rule, ev, ErrV, EvalError};
use crate::eval::content::lemma_agg_alike;
use crate::eval::round::{
    db_typed, db_view, is_fixpoint, lemma_prog_ok_shape, lemma_rep, lemma_rule_kinds, prog_ok, quiet_round, rep, rule_ok, rule_typed, same_shape,
    saturation, semi_saturation, facts_v, FactV,
    saturate_rules, saturate_rules_semi_naive, tuple_copy,
};
use crate::eval::store::{Db, DbS, Tuple, dbs, insert_s, combine_rows, find_row, lemma_find_upto, lemma_rel_at, lemma_rel_some, lemma_row_in_view, rows_v};
use crate::eval::value::{Ann, GroundVal, Semiring, ann_id, same_kind};
use crate::text::same_text;

verus! {

/// The semiring of the last declaration of `name`.
pub open spec fn sem_of(preds: Seq<CorePred>, name: Seq<char>) -> Option<Semiring>
    decreases preds.len(),
{
    if preds.len() == 0 {
        None
    } else if preds.last().name@ == name {
        Some(preds.last().semiring)
    } else {
        sem_of(preds.drop_last(), name)
    }
}

/// The arity of the last declaration of `name`.
pub open spec fn arity_of(preds: Seq<CorePred>, name: Seq<char>) -> u32
    decreases preds.len(),
{
    if preds.len() == 0 {
        0
    } else if preds.last().name@ == name {
        preds.last().arity
    } else {
        arity_of(preds.drop_last(), name)
    }
}

proof fn lemma_sem_of(preds: Seq<CorePred>, name: Seq<char>)
    ensures
        sem_of(preds, name) is None <==> forall|k: int| 0 <= k < preds.len() ==> (#[trigger] preds[k]).name@ != name,
        sem_of(preds, name) matches Some(s) ==> exists|k: int| 0 <= k < preds.len() && (#[trigger] preds[k]).name@ == name
            && preds[k].semiring == s && preds[k].arity == arity_of(preds, name)
            && forall|l: int| k < l < preds.len() ==> preds[l].name@ != name,
    decreases preds.len(),
{
    if preds.len() > 0 {
        let init = preds.drop_last();
        lemma_sem_of(init, name);
        assert forall|k: int| 0 <= k < init.len() implies init[k] == preds[k] by {}
        if preds.last().name@ == name {
            assert(preds[preds.len() - 1].name@ == name);
        } else {
            if sem_of(init, name) is None {
                assert forall|k: int| 0 <= k < preds.len() implies (#[trigger] preds[k]).name@ != name by {
                    if k < init.len() {
                        assert(init[k] == preds[k]);
                    }
                }
            } else {
                let k = choose|k: int| 0 <= k < init.len() && (#[trigger] init[k]).name@ == name
                    && init[k].semiring == sem_of(init, name)->0 && init[k].arity == arity_of(init, name)
                    && forall|l: int| 0 <= k < l < init.len() ==> init[l].name@ != name;
                assert(preds[k] == init[k]);
                assert forall|l: int| k < l < preds.len() implies preds[l].name@ != name by {
                    if l < init.len() {
                        assert(init[l] == preds[l]);
                    }
                }
            }
            if exists|k: int| 0 <= k < preds.len() && (#[trigger] preds[k]).name@ == name {
                let k = choose|k: int| 0 <= k < preds.len() && (#[trigger] preds[k]).name@ == name;
                assert(k < init.len());
                assert(init[k].name@ == name);
            }
        }
    }
}

/// The rules are well formed and typed: a positive body predicate shares its
/// head's semiring, an aggregate rule's head is declared `Bool`.
pub open spec fn prog_typed(prog: CoreProgram) -> bool {
    forall|i: int| 0 <= i < prog.rules@.len() ==> {
        let r = #[trigger] prog.rules@[i];
        &&& rule_ok(r)
        &&& forall|j: int| 0 <= j < r.body@.len() && #[trigger] r.body@[j] is Pos
            && sem_of(prog.predicates@, r.body@[j]->Pos_0.pred@) is Some
            && sem_of(prog.predicates@, r.head.pred@) is Some
            ==> sem_of(prog.predicates@, r.body@[j]->Pos_0.pred@) == sem_of(prog.predicates@, r.head.pred@)
        &&& is_aggregate_rule_spec(r) ==> sem_of(prog.predicates@, r.head.pred@) == Some(Semiring::Bool)
    }
}

/// Each EDB fact of a declared predicate carries an annotation of its semiring.
pub open spec fn edb_typed(prog: CoreProgram, edb: Seq<(String, Tuple, Ann)>) -> bool {
    forall|i: int| 0 <= i < edb.len() ==> (sem_of(prog.predicates@, (#[trigger] edb[i]).0@) matches Some(s) ==> same_kind(ann_id(s), edb[i].2))
}

/// The database holds the declared predicates, each with the semiring of its
/// last declaration.
pub open spec fn declared(db: Db, prog: CoreProgram) -> bool {
    &&& forall|p: Seq<char>| #[trigger] db.preds().contains(p) <==> sem_of(prog.predicates@, p) is Some
    &&& forall|p: Seq<char>| #[trigger] db.preds().contains(p) ==> db.rel(p).semiring == sem_of(prog.predicates@, p)->0
}

proof fn lemma_declared_ok(db: Db, prog: CoreProgram)
    requires
        declared(db, prog),
        prog_typed(prog),
    ensures
        prog_ok(db, prog),
{
    assert forall|i: int| 0 <= i < prog.rules@.len() implies rule_ok(#[trigger] prog.rules@[i]) && rule_typed(db, prog.rules@[i]) by {
        let r = prog.rules@[i];
        if db.preds().contains(r.head.pred@) {
            assert forall|j: int| 0 <= j < r.body@.len() && #[trigger] r.body@[j] is Pos
                && db.preds().contains(r.body@[j]->Pos_0.pred@)
                implies db.rel(r.body@[j]->Pos_0.pred@).semiring == db.rel(r.head.pred@).semiring by {
                assert(sem_of(prog.predicates@, r.body@[j]->Pos_0.pred@) is Some);
            }
        }
    }
}

proof fn lemma_declared_shape(a: Db, b: Db, prog: CoreProgram)
    requires
        declared(a, prog),
        same_shape(a, b),
    ensures
        declared(b, prog),
{
    assert forall|p: Seq<char>| #[trigger] b.preds().contains(p) implies b.rel(p).semiring == sem_of(prog.predicates@, p)->0 by {
        assert(a.preds().contains(p));
    }
}

/// The content of the database of the program's declared predicates: each
/// with the arity and semiring of its last declaration, no rows.
pub open spec fn init_s(prog: CoreProgram) -> DbS {
    Map::new(|p: Seq<char>| sem_of(prog.predicates@, p) is Some,
        |p: Seq<char>| (arity_of(prog.predicates@, p), sem_of(prog.predicates@, p)->0, Seq::<(Seq<GroundVal>, Ann)>::empty()))
}

/// The database of the program's declared predicates, empty.
fn empty_db(prog: &CoreProgram) -> (db: Db)
    ensures
        db.wf(),
        db_typed(db),
        declared(db, *prog),
        dbs(db) == init_s(*prog),
{
    let db = Db::from_program(prog);
    proof {
        assert forall|p: Seq<char>| #[trigger] db.preds().contains(p) <==> sem_of(prog.predicates@, p) is Some by {
            lemma_sem_of(prog.predicates@, p);
        }
        assert forall|p: Seq<char>| #[trigger] db.preds().contains(p) implies db.rel(p).semiring == sem_of(prog.predicates@, p)->0
            && db.rel(p).view() == Map::<Seq<GroundVal>, Ann>::empty() by {
            lemma_sem_of(prog.predicates@, p);
            let k = choose|k: int| 0 <= k < prog.predicates@.len() && (#[trigger] prog.predicates@[k]).name@ == p
                && prog.predicates@[k].semiring == sem_of(prog.predicates@, p)->0 && prog.predicates@[k].arity == arity_of(prog.predicates@, p)
                && forall|l: int| k < l < prog.predicates@.len() ==> prog.predicates@[l].name@ != p;
            assert(db.rel(prog.predicates@[k].name@) == db.rel(p));
        }
        assert forall|p: Seq<char>| #[trigger] db.preds().contains(p) implies dbs(db)[p] == init_s(*prog)[p] by {
            lemma_sem_of(prog.predicates@, p);
            let k = choose|k: int| 0 <= k < prog.predicates@.len() && (#[trigger] prog.predicates@[k]).name@ == p
                && prog.predicates@[k].semiring == sem_of(prog.predicates@, p)->0 && prog.predicates@[k].arity == arity_of(prog.predicates@, p)
                && forall|l: int| k < l < prog.predicates@.len() ==> prog.predicates@[l].name@ != p;
            assert(db.rel(prog.predicates@[k].name@) == db.rel(p));
            let rows = db.rel(p).rows@;
            if rows.len() > 0 {
                lemma_row_in_view(db, p, 0);
            }
            assert(rows_v(rows) =~= Seq::<(Seq<GroundVal>, Ann)>::empty());
        }
        assert(dbs(db) =~= init_s(*prog));
        assert forall|p: Seq<char>, t: Seq<GroundVal>| db.preds().contains(p) && #[trigger] db.rel(p).view().dom().contains(t)
            implies same_kind(ann_id(db.rel(p).semiring), db.rel(p).view()[t]) by {
            assert(db.rel(p).view() == Map::<Seq<GroundVal>, Ann>::empty());
        }
    }
    db
}

/// The semiring of the last declaration of `name`.
pub fn pred_semiring(preds: &Vec<CorePred>, name: &str) -> (r: Option<Semiring>)
    ensures
        r == sem_of(preds@, name@),
{
    let mut i: usize = preds.len();
    assert(preds@.take(i as int) =~= preds@);
    while i > 0
        invariant
            i <= preds@.len(),
            sem_of(preds@, name@) == sem_of(preds@.take(i as int), name@),
        decreases i,
    {
        let p = &preds[i - 1];
        assert(preds@.take(i as int).drop_last() =~= preds@.take(i - 1));
        assert(preds@.take(i as int).last() == *p);
        if same_text(p.name.as_str(), name) {
            return Some(p.semiring);
        }
        i = i - 1;
    }
    assert(preds@.take(0) =~= Seq::<CorePred>::empty());
    None
}

/// A symbol occurs in some tuple of the database.
pub open spec fn has_sym(db: Db, s: u32) -> bool {
    exists|i: int, j: int, k: int| 0 <= i < db.rels@.len() && 0 <= j < db.rels@[i].1.rows@.len()
        && 0 <= k < db.rels@[i].1.rows@[j].0@.len() && #[trigger] db.rels@[i].1.rows@[j].0@[k] == GroundVal::Sym(s)
}

/// The symbols the tuples of a database hold, by content.
pub open spec fn syms_s(s: DbS) -> Set<u32> {
    Set::new(|x: u32| exists|p: Seq<char>, j: int, k: int| s.dom().contains(p) && 0 <= j < s[p].2.len()
        && 0 <= k < s[p].2[j].0.len() && #[trigger] s[p].2[j].0[k] == GroundVal::Sym(x))
}

proof fn lemma_syms(db: Db, x: u32)
    requires
        db.wf(),
    ensures
        has_sym(db, x) <==> syms_s(dbs(db)).contains(x),
{
    let s = dbs(db);
    if has_sym(db, x) {
        let (i, j, k) = choose|i: int, j: int, k: int| 0 <= i < db.rels@.len() && 0 <= j < db.rels@[i].1.rows@.len()
            && 0 <= k < db.rels@[i].1.rows@[j].0@.len() && #[trigger] db.rels@[i].1.rows@[j].0@[k] == GroundVal::Sym(x);
        lemma_rel_at(db, i);
        let p = db.rels@[i].0@;
        assert(s[p].2[j] == (db.rel(p).rows@[j].0@, db.rel(p).rows@[j].1));
        assert(s[p].2[j].0[k] == GroundVal::Sym(x));
    }
    if syms_s(s).contains(x) {
        let (p, j, k) = choose|p: Seq<char>, j: int, k: int| s.dom().contains(p) && 0 <= j < s[p].2.len()
            && 0 <= k < s[p].2[j].0.len() && #[trigger] s[p].2[j].0[k] == GroundVal::Sym(x);
        lemma_rel_some(db, p);
        let i = choose|i: int| 0 <= i < db.rels@.len() && db.rels@[i].0@ == p && db.rel(p) == #[trigger] db.rels@[i].1;
        assert(s[p].2[j] == (db.rel(p).rows@[j].0@, db.rel(p).rows@[j].1));
        assert(db.rels@[i].1.rows@[j].0@[k] == GroundVal::Sym(x));
    }
}

/// The symbols the database's tuples hold, each once.
pub fn symbols(db: &Db) -> (r: Vec<u32>)
    requires
        db.wf(),
    ensures
        r@.no_duplicates(),
        forall|s: u32| r@.contains(s) <==> has_sym(*db, s),
        r@.len() == syms_s(dbs(*db)).len(),
{
    let mut out: Vec<u32> = Vec::new();
    let mut i: usize = 0;
    while i < db.rels.len()
        invariant
            i <= db.rels@.len(),
            out@.no_duplicates(),
            forall|s: u32| out@.contains(s) <==> exists|a: int, j: int, k: int| 0 <= a < i && 0 <= j < db.rels@[a].1.rows@.len()
                && 0 <= k < db.rels@[a].1.rows@[j].0@.len() && #[trigger] db.rels@[a].1.rows@[j].0@[k] == GroundVal::Sym(s),
        decreases db.rels@.len() - i,
    {
        let rows = &db.rels[i].1.rows;
        let mut j: usize = 0;
        while j < rows.len()
            invariant
                i < db.rels@.len(),
                rows == &db.rels@[i as int].1.rows,
                j <= rows@.len(),
                out@.no_duplicates(),
                forall|s: u32| out@.contains(s) <==> (exists|a: int, jj: int, k: int| 0 <= a < i && 0 <= jj < db.rels@[a].1.rows@.len()
                    && 0 <= k < db.rels@[a].1.rows@[jj].0@.len() && #[trigger] db.rels@[a].1.rows@[jj].0@[k] == GroundVal::Sym(s))
                    || (exists|jj: int, k: int| 0 <= jj < j && 0 <= k < rows@[jj].0@.len() && #[trigger] rows@[jj].0@[k] == GroundVal::Sym(s)),
            decreases rows@.len() - j,
        {
            let t = &rows[j].0;
            let mut k: usize = 0;
            while k < t.len()
                invariant
                    i < db.rels@.len(),
                    rows == &db.rels@[i as int].1.rows,
                    j < rows@.len(),
                    t == &rows@[j as int].0,
                    k <= t@.len(),
                    out@.no_duplicates(),
                    forall|s: u32| out@.contains(s) <==> (exists|a: int, jj: int, kk: int| 0 <= a < i && 0 <= jj < db.rels@[a].1.rows@.len()
                        && 0 <= kk < db.rels@[a].1.rows@[jj].0@.len() && #[trigger] db.rels@[a].1.rows@[jj].0@[kk] == GroundVal::Sym(s))
                        || (exists|jj: int, kk: int| 0 <= jj < j && 0 <= kk < rows@[jj].0@.len() && #[trigger] rows@[jj].0@[kk] == GroundVal::Sym(s))
                        || (exists|kk: int| 0 <= kk < k && #[trigger] t@[kk] == GroundVal::Sym(s)),
                decreases t@.len() - k,
            {
                let ghost o_before = out@;
                if let GroundVal::Sym(x) = t[k] {
                    let mut seen = false;
                    let mut q: usize = 0;
                    while q < out.len()
                        invariant
                            q <= out@.len(),
                            seen <==> exists|z: int| 0 <= z < q && out@[z] == x,
                        decreases out@.len() - q,
                    {
                        if out[q] == x {
                            seen = true;
                        }
                        q = q + 1;
                    }
                    if !seen {
                        let ghost o0 = out@;
                        out.push(x);
                        proof {
                            assert(out@[out@.len() - 1] == x);
                            assert forall|a: int, b: int| 0 <= a < b < out@.len() implies out@[a] != out@[b] by {
                                if b == out@.len() - 1 {
                                    assert(out@[a] == o0[a]);
                                } else {
                                    assert(out@[a] == o0[a] && out@[b] == o0[b]);
                                }
                            }
                        }
                    } else {
                        proof {
                            let z = choose|z: int| 0 <= z < out@.len() && out@[z] == x;
                            assert(out@.contains(x));
                        }
                    }
                    proof {
                        assert(t@[k as int] == GroundVal::Sym(x));
                        assert(out@.contains(x));
                        assert forall|y: u32| #[trigger] out@.contains(y) <==> o_before.contains(y) || y == x by {
                            if out@.contains(y) && !o_before.contains(y) {
                                let z = choose|z: int| 0 <= z < out@.len() && out@[z] == y;
                                if z < o_before.len() {
                                    assert(o_before[z] == out@[z]);
                                }
                            }
                            if o_before.contains(y) {
                                let z = choose|z: int| 0 <= z < o_before.len() && o_before[z] == y;
                                assert(out@[z] == o_before[z]);
                            }
                        }
                    }
                }
                proof {
                    assert forall|s: u32| out@.contains(s) <==> (exists|a: int, jj: int, kk: int| 0 <= a < i && 0 <= jj < db.rels@[a].1.rows@.len()
                        && 0 <= kk < db.rels@[a].1.rows@[jj].0@.len() && #[trigger] db.rels@[a].1.rows@[jj].0@[kk] == GroundVal::Sym(s))
                        || (exists|jj: int, kk: int| 0 <= jj < j && 0 <= kk < rows@[jj].0@.len() && #[trigger] rows@[jj].0@[kk] == GroundVal::Sym(s))
                        || (exists|kk: int| 0 <= kk < k + 1 && #[trigger] t@[kk] == GroundVal::Sym(s)) by {
                        if t@[k as int] == GroundVal::Sym(s) {
                            assert(out@.contains(s));
                        } else {
                            assert(out@.contains(s) <==> o_before.contains(s));
                            if exists|kk: int| 0 <= kk < k + 1 && #[trigger] t@[kk] == GroundVal::Sym(s) {
                                let kk = choose|kk: int| 0 <= kk < k + 1 && #[trigger] t@[kk] == GroundVal::Sym(s);
                                assert(kk < k);
                            }
                        }
                    }
                }
                k = k + 1;
            }
            proof {
                assert forall|s: u32| out@.contains(s) <==> (exists|a: int, jj: int, kk: int| 0 <= a < i && 0 <= jj < db.rels@[a].1.rows@.len()
                    && 0 <= kk < db.rels@[a].1.rows@[jj].0@.len() && #[trigger] db.rels@[a].1.rows@[jj].0@[kk] == GroundVal::Sym(s))
                    || (exists|jj: int, kk: int| 0 <= jj < j + 1 && 0 <= kk < rows@[jj].0@.len() && #[trigger] rows@[jj].0@[kk] == GroundVal::Sym(s)) by {
                    if exists|jj: int, kk: int| 0 <= jj < j + 1 && 0 <= kk < rows@[jj].0@.len() && #[trigger] rows@[jj].0@[kk] == GroundVal::Sym(s) {
                        let (jj, kk) = choose|jj: int, kk: int| 0 <= jj < j + 1 && 0 <= kk < rows@[jj].0@.len() && #[trigger] rows@[jj].0@[kk] == GroundVal::Sym(s);
                        if jj == j {
                            assert(t@[kk] == GroundVal::Sym(s));
                        }
                    }
                }
            }
            j = j + 1;
        }
        proof {
            assert forall|s: u32| out@.contains(s) <==> exists|a: int, jj: int, k: int| 0 <= a < i + 1 && 0 <= jj < db.rels@[a].1.rows@.len()
                && 0 <= k < db.rels@[a].1.rows@[jj].0@.len() && #[trigger] db.rels@[a].1.rows@[jj].0@[k] == GroundVal::Sym(s) by {
                if exists|a: int, jj: int, k: int| 0 <= a < i + 1 && 0 <= jj < db.rels@[a].1.rows@.len()
                    && 0 <= k < db.rels@[a].1.rows@[jj].0@.len() && #[trigger] db.rels@[a].1.rows@[jj].0@[k] == GroundVal::Sym(s) {
                    let (a, jj, k) = choose|a: int, jj: int, k: int| 0 <= a < i + 1 && 0 <= jj < db.rels@[a].1.rows@.len()
                        && 0 <= k < db.rels@[a].1.rows@[jj].0@.len() && #[trigger] db.rels@[a].1.rows@[jj].0@[k] == GroundVal::Sym(s);
                    if a == i {
                        assert(rows@[jj].0@[k] == GroundVal::Sym(s));
                    }
                }
            }
        }
        i = i + 1;
    }
    proof {
        assert forall|x: u32| out@.to_set().contains(x) <==> syms_s(dbs(*db)).contains(x) by {
            lemma_syms(*db, x);
        }
        assert(out@.to_set() =~= syms_s(dbs(*db)));
        out@.unique_seq_to_set();
    }
    out
}


/// The aggregate rules of stratum `k` among the first `j` rules, applied in
/// order to content `s`.
pub open spec fn aggs_upto(s: DbS, prog: CoreProgram, k: u32, j: nat) -> Result<DbS, ErrV>
    decreases j,
{
    if j == 0 {
        Ok(s)
    } else {
        match aggs_upto(s, prog, k, (j - 1) as nat) {
            Err(e) => Err(e),
            Ok(w) => {
                let r = prog.rules@[j - 1];
                if r.stratum == k && is_aggregate_rule_spec(r) {
                    match agg_rule_spec(rep(w), r, prog.predicates@, k) {
                        Err(e) => Err(e),
                        Ok(ts) => Ok(add_units_s(w, r.head.pred@, ts)),
                    }
                } else {
                    Ok(w)
                }
            },
        }
    }
}

/// Stratum `k` from content `s`: its aggregate rules once, in order, then its
/// other rules saturated, naively or semi-naively.
pub open spec fn stratum_s(s: DbS, prog: CoreProgram, k: u32, is_trop: bool, universe: nat, semi_naive: bool) -> Result<DbS, ErrV> {
    match aggs_upto(s, prog, k, prog.rules@.len()) {
        Err(e) => Err(e),
        Ok(w) => if semi_naive {
            semi_saturation(w, prog, k, is_trop, universe)
        } else {
            saturation(w, prog, k, is_trop, universe)
        },
    }
}

/// A stratum: its aggregate rules once, in order, then rounds of its other
/// rules, naive or semi-naive, until one changes nothing.
pub fn saturate_stratum(prog: &CoreProgram, db: &mut Db, stratum: u32, is_trop: bool, universe: usize, semi_naive: bool) -> (r: Result<(), EvalError>)
    requires
        old(db).wf(),
        db_typed(*old(db)),
        declared(*old(db), *prog),
        prog_typed(*prog),
    ensures
        r is Ok ==> final(db).wf() && db_typed(*final(db)) && declared(*final(db), *prog)
            && (!semi_naive ==> exists|d: Db| d.wf() && db_view(d) == db_view(*final(db)) && #[trigger] is_fixpoint(d, *prog, stratum))
            && (semi_naive ==> exists|d: Db, dl: Option<Seq<FactV>>| d.wf() && db_view(d) == db_view(*final(db)) && #[trigger] quiet_round(d, *prog, stratum, dl)),
        r is Ok <==> stratum_s(dbs(*old(db)), *prog, stratum, is_trop, universe as nat, semi_naive) is Ok,
        r is Ok ==> dbs(*final(db)) == stratum_s(dbs(*old(db)), *prog, stratum, is_trop, universe as nat, semi_naive)->Ok_0,
        r matches Err(e) ==> stratum_s(dbs(*old(db)), *prog, stratum, is_trop, universe as nat, semi_naive) == Err::<DbS, ErrV>(ev(e)),
{
    let ghost s0 = dbs(*db);
    let mut j: usize = 0;
    while j < prog.rules.len()
        invariant
            j <= prog.rules@.len(),
            db.wf(),
            db_typed(*db),
            declared(*db, *prog),
            prog_typed(*prog),
            s0 == dbs(*old(db)),
            aggs_upto(s0, *prog, stratum, j as nat) == Ok::<DbS, ErrV>(dbs(*db)),
        decreases prog.rules@.len() - j,
    {
        let rule = &prog.rules[j];
        if rule.stratum == stratum && is_aggregate_rule(rule) {
            let ghost d0 = *db;
            let ghost head = rule.head.pred@;
            proof {
                lemma_rep(*db);
                lemma_agg_alike(rep(dbs(*db)), *db, *rule, prog.predicates@, stratum);
                assert(rule_ok(*rule));
                assert(sem_of(prog.predicates@, head) == Some(Semiring::Bool));
                assert(db.preds().contains(head));
                assert(db.rel(head).semiring == Semiring::Bool);
                lemma_declared_ok(*db, *prog);
                assert(rule_typed(*db, *rule));
                lemma_rule_kinds(*db, *rule);
                assert forall|t: Seq<GroundVal>| #[trigger] db.rel(head).view().dom().contains(t) implies db.rel(head).view()[t] is Unit by {
                    assert(same_kind(ann_id(db.rel(head).semiring), db.rel(head).view()[t]));
                }
            }
            match eval_aggregate_rule(db, rule, &prog.predicates, stratum) {
                Ok(()) => {},
                Err(e) => {
                    proof { lemma_aggs_err_extends(s0, *prog, stratum, (j + 1) as nat, prog.rules@.len()); }
                    return Err(e);
                },
            }
            proof {
                assert forall|p: Seq<char>, t: Seq<GroundVal>| db.preds().contains(p) && #[trigger] db.rel(p).view().dom().contains(t)
                    implies same_kind(ann_id(db.rel(p).semiring), db.rel(p).view()[t]) by {
                    if p != head {
                        assert(d0.preds().contains(p));
                        assert(d0.rel(p).view().dom().contains(t));
                    }
                }
                assert forall|p: Seq<char>| #[trigger] db.preds().contains(p) implies db.rel(p).semiring == sem_of(prog.predicates@, p)->0 by {
                    assert(d0.preds().contains(p));
                }
            }
        }
        j = j + 1;
    }
    proof {
        lemma_declared_ok(*db, *prog);
    }
    let ghost d1 = *db;
    assert(aggs_upto(s0, *prog, stratum, prog.rules@.len()) == Ok::<DbS, ErrV>(dbs(d1)));
    let r = if semi_naive {
        saturate_rules_semi_naive(prog, db, stratum, is_trop, universe)
    } else {
        saturate_rules(prog, db, stratum, is_trop, universe)
    };
    proof {
        lemma_declared_shape(d1, *db, *prog);
    }
    r
}

proof fn lemma_aggs_err_extends(s: DbS, prog: CoreProgram, k: u32, j: nat, n: nat)
    requires
        j <= n,
        aggs_upto(s, prog, k, j) is Err,
    ensures
        aggs_upto(s, prog, k, n) == aggs_upto(s, prog, k, j),
    decreases n - j,
{
    if j < n {
        lemma_aggs_err_extends(s, prog, k, j, (n - 1) as nat);
    }
}

/// Whether a rule of the stratum derives into a tropical predicate.
pub fn stratum_is_trop(prog: &CoreProgram, stratum: u32) -> (b: bool)
    ensures
        b == exists|j: int| 0 <= j < prog.rules@.len() && (#[trigger] prog.rules@[j]).stratum == stratum
            && sem_of(prog.predicates@, prog.rules@[j].head.pred@) == Some(Semiring::Trop),
{
    let mut j: usize = 0;
    while j < prog.rules.len()
        invariant
            j <= prog.rules@.len(),
            forall|x: int| 0 <= x < j ==> !((#[trigger] prog.rules@[x]).stratum == stratum
                && sem_of(prog.predicates@, prog.rules@[x].head.pred@) == Some(Semiring::Trop)),
        decreases prog.rules@.len() - j,
    {
        let rule = &prog.rules[j];
        if rule.stratum == stratum {
            match pred_semiring(&prog.predicates, rule.head.pred.as_str()) {
                Some(Semiring::Trop) => return true,
                _ => {},
            }
        }
        j = j + 1;
    }
    false
}

/// The first EDB fact of an undeclared predicate is at `i`.
pub open spec fn first_undeclared(prog: CoreProgram, edb: Seq<(String, Tuple, Ann)>, i: int) -> bool {
    &&& 0 <= i < edb.len()
    &&& sem_of(prog.predicates@, edb[i].0@) is None
    &&& forall|l: int| 0 <= l < i ==> sem_of(prog.predicates@, (#[trigger] edb[l]).0@) is Some
}

/// The EDB facts among the first `k` combined into content `s`; a fact of an
/// undeclared predicate stops.
pub open spec fn seed_upto(s: DbS, edb: Seq<FactV>, k: nat) -> Result<DbS, ErrV>
    decreases k,
{
    if k == 0 {
        Ok(s)
    } else {
        match seed_upto(s, edb, (k - 1) as nat) {
            Err(e) => Err(e),
            Ok(w) => if !w.dom().contains(edb[k - 1].0) {
                Err(ErrV::UnknownPred(edb[k - 1].0))
            } else {
                Ok(insert_s(w, edb[k - 1].0, edb[k - 1].1, edb[k - 1].2).0)
            },
        }
    }
}

/// A rule of stratum `k` derives into a tropical predicate.
pub open spec fn trop_s(prog: CoreProgram, k: u32) -> bool {
    exists|j: int| 0 <= j < prog.rules@.len() && (#[trigger] prog.rules@[j]).stratum == k
        && sem_of(prog.predicates@, prog.rules@[j].head.pred@) == Some(Semiring::Trop)
}

/// The first `k` strata, in order, from content `s`.
pub open spec fn strata_upto(s: DbS, prog: CoreProgram, universe: nat, semi_naive: bool, k: nat) -> Result<DbS, ErrV>
    decreases k,
{
    if k == 0 {
        Ok(s)
    } else {
        match strata_upto(s, prog, universe, semi_naive, (k - 1) as nat) {
            Err(e) => Err(e),
            Ok(w) => stratum_s(w, prog, (k - 1) as u32, trop_s(prog, (k - 1) as u32), universe, semi_naive),
        }
    }
}

/// A run by content: the declared predicates' empty relations seeded with the
/// EDB, then every stratum in order; the symbols of the seeded database bound
/// the rounds of a tropical stratum.
pub open spec fn run_s(prog: CoreProgram, edb: Seq<FactV>, semi_naive: bool) -> Result<DbS, ErrV> {
    match seed_upto(init_s(prog), edb, edb.len()) {
        Err(e) => Err(e),
        Ok(s) => strata_upto(s, prog, syms_s(s).len(), semi_naive, prog.num_strata as nat),
    }
}

proof fn lemma_seed_err_extends(s: DbS, edb: Seq<FactV>, k: nat, n: nat)
    requires
        k <= n,
        seed_upto(s, edb, k) is Err,
    ensures
        seed_upto(s, edb, n) == seed_upto(s, edb, k),
    decreases n - k,
{
    if k < n {
        lemma_seed_err_extends(s, edb, k, (n - 1) as nat);
    }
}

proof fn lemma_strata_err_extends(s: DbS, prog: CoreProgram, u: nat, semi: bool, k: nat, n: nat)
    requires
        k <= n,
        strata_upto(s, prog, u, semi, k) is Err,
    ensures
        strata_upto(s, prog, u, semi, n) == strata_upto(s, prog, u, semi, k),
    decreases n - k,
{
    if k < n {
        lemma_strata_err_extends(s, prog, u, semi, k, (n - 1) as nat);
    }
}

fn run_with(prog: &CoreProgram, edb: &Vec<(String, Tuple, Ann)>, semi_naive: bool) -> (r: Result<Db, EvalError>)
    requires
        prog_typed(*prog),
        edb_typed(*prog, edb@),
    ensures
        r matches Ok(db) ==> db.wf() && db_typed(db) && declared(db, *prog)
            && (!semi_naive && prog.num_strata > 0 ==> exists|d: Db| d.wf() && db_view(d) == db_view(db)
                && #[trigger] is_fixpoint(d, *prog, (prog.num_strata - 1) as u32))
            && (semi_naive && prog.num_strata > 0 ==> exists|d: Db, dl: Option<Seq<FactV>>| d.wf() && db_view(d) == db_view(db)
                && #[trigger] quiet_round(d, *prog, (prog.num_strata - 1) as u32, dl)),
        forall|i: int| #[trigger] first_undeclared(*prog, edb@, i) ==> (r matches Err(EvalError::UnknownPred(p)) && p@ == edb@[i].0@),
        r is Ok <==> run_s(*prog, facts_v(edb@), semi_naive) is Ok,
        r matches Ok(db) ==> dbs(db) == run_s(*prog, facts_v(edb@), semi_naive)->Ok_0,
        r matches Err(e) ==> run_s(*prog, facts_v(edb@), semi_naive) == Err::<DbS, ErrV>(ev(e)),
{
    let ghost fv = facts_v(edb@);
    let mut db = empty_db(prog);
    let mut i: usize = 0;
    while i < edb.len()
        invariant
            i <= edb@.len(),
            fv == facts_v(edb@),
            seed_upto(init_s(*prog), fv, i as nat) == Ok::<DbS, ErrV>(dbs(db)),
            db.wf(),
            db_typed(db),
            declared(db, *prog),
            edb_typed(*prog, edb@),
            forall|l: int| 0 <= l < i ==> sem_of(prog.predicates@, (#[trigger] edb@[l]).0@) is Some,
        decreases edb@.len() - i,
    {
        let pred = edb[i].0.as_str();
        let ann = edb[i].2;
        if db.relation(pred).is_none() {
            proof {
                assert(sem_of(prog.predicates@, pred@) is None);
                assert forall|x: int| #[trigger] first_undeclared(*prog, edb@, x) implies x == i by {
                    if x < i {
                    } else if x > i {
                        assert(sem_of(prog.predicates@, edb@[i as int].0@) is Some);
                    }
                }
                assert(fv[i as int].0 == pred@);
                assert(!dbs(db).dom().contains(pred@));
                lemma_seed_err_extends(init_s(*prog), fv, (i + 1) as nat, fv.len());
            }
            return Err(EvalError::UnknownPred(edb[i].0.clone()));
        }
        let ghost d0 = db;
        let ghost t = edb@[i as int].1@;
        proof {
            assert(sem_of(prog.predicates@, pred@) is Some);
            assert(same_kind(ann_id(db.rel(pred@).semiring), ann));
            if db.rel(pred@).view().dom().contains(t) {
                assert(same_kind(ann_id(db.rel(pred@).semiring), db.rel(pred@).view()[t]));
            }
        }
        let tup = tuple_copy(&edb[i].1);
        db.insert(pred, tup, ann);
        proof {
            assert(fv[i as int] == (pred@, t, ann));
            assert forall|p: Seq<char>, u: Seq<GroundVal>| db.preds().contains(p) && #[trigger] db.rel(p).view().dom().contains(u)
                implies same_kind(ann_id(db.rel(p).semiring), db.rel(p).view()[u]) by {
                if p != pred@ {
                    assert(d0.preds().contains(p));
                    assert(d0.rel(p).view().dom().contains(u));
                } else if u != t {
                    assert(d0.rel(p).view().dom().contains(u));
                } else if d0.rel(p).view().dom().contains(t) {
                    assert(same_kind(ann_id(d0.rel(p).semiring), d0.rel(p).view()[t]));
                }
            }
            assert forall|p: Seq<char>| #[trigger] db.preds().contains(p) implies db.rel(p).semiring == sem_of(prog.predicates@, p)->0 by {
                assert(d0.preds().contains(p));
            }
        }
        i = i + 1;
    }
    let syms = symbols(&db);
    let universe = syms.len();
    let ghost seeded = dbs(db);
    let mut k: u32 = 0;
    while k < prog.num_strata
        invariant
            k <= prog.num_strata,
            fv == facts_v(edb@),
            seed_upto(init_s(*prog), fv, fv.len()) == Ok::<DbS, ErrV>(seeded),
            universe == syms_s(seeded).len(),
            strata_upto(seeded, *prog, universe as nat, semi_naive, k as nat) == Ok::<DbS, ErrV>(dbs(db)),
            db.wf(),
            db_typed(db),
            declared(db, *prog),
            prog_typed(*prog),
            forall|l: int| 0 <= l < edb@.len() ==> sem_of(prog.predicates@, (#[trigger] edb@[l]).0@) is Some,
            !semi_naive && k > 0 ==> exists|d: Db| d.wf() && db_view(d) == db_view(db) && #[trigger] is_fixpoint(d, *prog, (k - 1) as u32),
            semi_naive && k > 0 ==> exists|d: Db, dl: Option<Seq<FactV>>| d.wf() && db_view(d) == db_view(db) && #[trigger] quiet_round(d, *prog, (k - 1) as u32, dl),
        decreases prog.num_strata - k,
    {
        let is_trop = stratum_is_trop(prog, k);
        match saturate_stratum(prog, &mut db, k, is_trop, universe, semi_naive) {
            Ok(()) => {},
            Err(e) => {
                proof { lemma_strata_err_extends(seeded, *prog, universe as nat, semi_naive, (k + 1) as nat, prog.num_strata as nat); }
                return Err(e);
            },
        }
        proof {
            if !semi_naive {
                let d = choose|d: Db| d.wf() && db_view(d) == db_view(db) && #[trigger] is_fixpoint(d, *prog, k);
                assert((((k + 1) as int) - 1) as u32 == k);
                assert(d.wf() && db_view(d) == db_view(db) && is_fixpoint(d, *prog, (((k + 1) as int) - 1) as u32));
            } else {
                let (d, dl) = choose|d: Db, dl: Option<Seq<FactV>>| d.wf() && db_view(d) == db_view(db) && #[trigger] quiet_round(d, *prog, k, dl);
                assert((((k + 1) as int) - 1) as u32 == k);
                assert(d.wf() && db_view(d) == db_view(db) && quiet_round(d, *prog, (((k + 1) as int) - 1) as u32, dl));
            }
        }
        k = k + 1;
    }
    Ok(db)
}

/// Run the program to its fixpoint over the EDB with naive rounds.
pub fn run(prog: &CoreProgram, edb: &Vec<(String, Tuple, Ann)>) -> (r: Result<Db, EvalError>)
    requires
        prog_typed(*prog),
        edb_typed(*prog, edb@),
    ensures
        r matches Ok(db) ==> db.wf() && db_typed(db) && declared(db, *prog)
            && (prog.num_strata > 0 ==> exists|d: Db| d.wf() && db_view(d) == db_view(db)
                && #[trigger] is_fixpoint(d, *prog, (prog.num_strata - 1) as u32)),
        forall|i: int| #[trigger] first_undeclared(*prog, edb@, i) ==> (r matches Err(EvalError::UnknownPred(p)) && p@ == edb@[i].0@),
        r is Ok <==> run_s(*prog, facts_v(edb@), false) is Ok,
        r matches Ok(db) ==> dbs(db) == run_s(*prog, facts_v(edb@), false)->Ok_0,
        r matches Err(e) ==> run_s(*prog, facts_v(edb@), false) == Err::<DbS, ErrV>(ev(e)),
{
    run_with(prog, edb, false)
}

/// Run the program to its fixpoint over the EDB with semi-naive rounds.
pub fn run_semi_naive(prog: &CoreProgram, edb: &Vec<(String, Tuple, Ann)>) -> (r: Result<Db, EvalError>)
    requires
        prog_typed(*prog),
        edb_typed(*prog, edb@),
    ensures
        r matches Ok(db) ==> db.wf() && db_typed(db) && declared(db, *prog)
            && (prog.num_strata > 0 ==> exists|d: Db, dl: Option<Seq<FactV>>| d.wf() && db_view(d) == db_view(db)
                && #[trigger] quiet_round(d, *prog, (prog.num_strata - 1) as u32, dl)),
        forall|i: int| #[trigger] first_undeclared(*prog, edb@, i) ==> (r matches Err(EvalError::UnknownPred(p)) && p@ == edb@[i].0@),
        r is Ok <==> run_s(*prog, facts_v(edb@), true) is Ok,
        r matches Ok(db) ==> dbs(db) == run_s(*prog, facts_v(edb@), true)->Ok_0,
        r matches Err(e) ==> run_s(*prog, facts_v(edb@), true) == Err::<DbS, ErrV>(ev(e)),
{
    run_with(prog, edb, true)
}

/// The symbols the tuples of the EDB mention.
pub open spec fn edb_syms(edb: Seq<FactV>) -> Set<u32> {
    Set::new(|x: u32| exists|i: int, k: int| 0 <= i < edb.len() && 0 <= k < edb[i].1.len() && #[trigger] edb[i].1[k] == GroundVal::Sym(x))
}

/// Some row of `rows` mentions symbol `x`.
pub open spec fn rows_have(rows: Seq<(Seq<GroundVal>, Ann)>, x: u32) -> bool {
    exists|j: int, k: int| 0 <= j < rows.len() && 0 <= k < rows[j].0.len() && #[trigger] rows[j].0[k] == GroundVal::Sym(x)
}

/// Tuple `t` mentions symbol `x`.
pub open spec fn tuple_has(t: Seq<GroundVal>, x: u32) -> bool {
    exists|k: int| 0 <= k < t.len() && #[trigger] t[k] == GroundVal::Sym(x)
}

proof fn lemma_combine_syms(rows: Seq<(Seq<GroundVal>, Ann)>, t: Seq<GroundVal>, a: Ann, x: u32)
    ensures
        rows_have(combine_rows(rows, t, a).0, x) <==> rows_have(rows, x) || tuple_has(t, x),
{
    lemma_find_upto(rows, t, rows.len());
    let r2 = combine_rows(rows, t, a).0;
    match find_row(rows, t) {
        None => {
            assert(r2 == rows.push((t, a)));
            if rows_have(r2, x) {
                let (j, k) = choose|j: int, k: int| 0 <= j < r2.len() && 0 <= k < r2[j].0.len() && #[trigger] r2[j].0[k] == GroundVal::Sym(x);
                if j < rows.len() {
                    assert(rows[j].0[k] == GroundVal::Sym(x));
                } else {
                    assert(t[k] == GroundVal::Sym(x));
                }
            }
            if rows_have(rows, x) {
                let (j, k) = choose|j: int, k: int| 0 <= j < rows.len() && 0 <= k < rows[j].0.len() && #[trigger] rows[j].0[k] == GroundVal::Sym(x);
                assert(r2[j] == rows[j]);
            }
            if tuple_has(t, x) {
                let k = choose|k: int| 0 <= k < t.len() && #[trigger] t[k] == GroundVal::Sym(x);
                assert(r2[rows.len() as int].0[k] == GroundVal::Sym(x));
            }
        },
        Some(i) => {
            assert(rows[i].0 == t);
            assert forall|j: int| 0 <= j < r2.len() implies #[trigger] r2[j].0 == rows[j].0 by {}
            assert(r2.len() == rows.len());
            if rows_have(r2, x) {
                let (j, k) = choose|j: int, k: int| 0 <= j < r2.len() && 0 <= k < r2[j].0.len() && #[trigger] r2[j].0[k] == GroundVal::Sym(x);
                assert(rows[j].0[k] == GroundVal::Sym(x));
            }
            if rows_have(rows, x) {
                let (j, k) = choose|j: int, k: int| 0 <= j < rows.len() && 0 <= k < rows[j].0.len() && #[trigger] rows[j].0[k] == GroundVal::Sym(x);
                assert(r2[j].0[k] == GroundVal::Sym(x));
            }
            if tuple_has(t, x) {
                let k = choose|k: int| 0 <= k < t.len() && #[trigger] t[k] == GroundVal::Sym(x);
                assert(r2[i].0[k] == GroundVal::Sym(x));
            }
        },
    }
}

proof fn lemma_insert_syms(w: DbS, p: Seq<char>, t: Seq<GroundVal>, a: Ann)
    requires
        w.dom().contains(p),
    ensures
        forall|x: u32| #[trigger] syms_s(insert_s(w, p, t, a).0).contains(x) <==> syms_s(w).contains(x) || tuple_has(t, x),
{
    let w2 = insert_s(w, p, t, a).0;
    assert forall|x: u32| #[trigger] syms_s(w2).contains(x) <==> syms_s(w).contains(x) || tuple_has(t, x) by {
        lemma_combine_syms(w[p].2, t, a, x);
        if syms_s(w2).contains(x) {
            let (q, j, k) = choose|q: Seq<char>, j: int, k: int| w2.dom().contains(q) && 0 <= j < w2[q].2.len()
                && 0 <= k < w2[q].2[j].0.len() && #[trigger] w2[q].2[j].0[k] == GroundVal::Sym(x);
            if q == p {
                assert(rows_have(w2[p].2, x));
                if rows_have(w[p].2, x) {
                    let (j2, k2) = choose|j2: int, k2: int| 0 <= j2 < w[p].2.len() && 0 <= k2 < w[p].2[j2].0.len() && #[trigger] w[p].2[j2].0[k2] == GroundVal::Sym(x);
                    assert(syms_s(w).contains(x));
                }
            } else {
                assert(w[q] == w2[q]);
                assert(syms_s(w).contains(x));
            }
        }
        if syms_s(w).contains(x) {
            let (q, j, k) = choose|q: Seq<char>, j: int, k: int| w.dom().contains(q) && 0 <= j < w[q].2.len()
                && 0 <= k < w[q].2[j].0.len() && #[trigger] w[q].2[j].0[k] == GroundVal::Sym(x);
            if q == p {
                assert(rows_have(w[p].2, x));
                let (j2, k2) = choose|j2: int, k2: int| 0 <= j2 < w2[p].2.len() && 0 <= k2 < w2[p].2[j2].0.len() && #[trigger] w2[p].2[j2].0[k2] == GroundVal::Sym(x);
                assert(syms_s(w2).contains(x));
            } else {
                assert(w[q] == w2[q]);
                assert(w2[q].2[j].0[k] == GroundVal::Sym(x));
            }
        }
        if tuple_has(t, x) {
            assert(rows_have(w2[p].2, x));
            let (j2, k2) = choose|j2: int, k2: int| 0 <= j2 < w2[p].2.len() && 0 <= k2 < w2[p].2[j2].0.len() && #[trigger] w2[p].2[j2].0[k2] == GroundVal::Sym(x);
            assert(syms_s(w2).contains(x));
        }
    }
}

proof fn lemma_seed_syms(s0: DbS, edb: Seq<FactV>, n: nat)
    requires
        n <= edb.len(),
        seed_upto(s0, edb, n) is Ok,
    ensures
        forall|x: u32| #[trigger] syms_s(seed_upto(s0, edb, n)->Ok_0).contains(x)
            <==> syms_s(s0).contains(x) || edb_syms(edb.take(n as int)).contains(x),
    decreases n,
{
    if n > 0 {
        let m = (n - 1) as nat;
        assert(seed_upto(s0, edb, m) is Ok);
        lemma_seed_syms(s0, edb, m);
        let w = seed_upto(s0, edb, m)->Ok_0;
        let f = edb[n - 1];
        lemma_insert_syms(w, f.0, f.1, f.2);
        let e1 = edb.take(m as int);
        let e2 = edb.take(n as int);
        assert forall|x: u32| #[trigger] edb_syms(e2).contains(x) <==> edb_syms(e1).contains(x) || tuple_has(f.1, x) by {
            if edb_syms(e2).contains(x) {
                let (i, k) = choose|i: int, k: int| 0 <= i < e2.len() && 0 <= k < e2[i].1.len() && #[trigger] e2[i].1[k] == GroundVal::Sym(x);
                if i < m {
                    assert(e1[i] == e2[i]);
                } else {
                    assert(f.1[k] == GroundVal::Sym(x));
                }
            }
            if edb_syms(e1).contains(x) {
                let (i, k) = choose|i: int, k: int| 0 <= i < e1.len() && 0 <= k < e1[i].1.len() && #[trigger] e1[i].1[k] == GroundVal::Sym(x);
                assert(e2[i] == e1[i]);
            }
            if tuple_has(f.1, x) {
                let k = choose|k: int| 0 <= k < f.1.len() && #[trigger] f.1[k] == GroundVal::Sym(x);
                assert(e2[m as int].1[k] == GroundVal::Sym(x));
            }
        }
    } else {
        assert forall|x: u32| !(#[trigger] edb_syms(edb.take(0)).contains(x)) by {}
    }
}

/// The round budget of a run: every tropical stratum may take as many
/// changing rounds as the EDB's tuples have distinct symbols, plus two,
/// before its rounds count as a negative-weight cycle; the number of
/// declared predicates or rules plays no part in it.
pub proof fn lemma_round_budget(prog: CoreProgram, edb: Seq<FactV>, semi_naive: bool)
    ensures
        run_s(prog, edb, semi_naive) == match seed_upto(init_s(prog), edb, edb.len()) {
            Err(e) => Err(e),
            Ok(s) => strata_upto(s, prog, edb_syms(edb).len(), semi_naive, prog.num_strata as nat),
        },
{
    let s0 = init_s(prog);
    if seed_upto(s0, edb, edb.len()) is Ok {
        lemma_seed_syms(s0, edb, edb.len());
        let s = seed_upto(s0, edb, edb.len())->Ok_0;
        assert(edb.take(edb.len() as int) =~= edb);
        assert forall|x: u32| !(#[trigger] syms_s(s0).contains(x)) by {
            if syms_s(s0).contains(x) {
                let (q, j, k) = choose|q: Seq<char>, j: int, k: int| s0.dom().contains(q) && 0 <= j < s0[q].2.len()
                    && 0 <= k < s0[q].2[j].0.len() && #[trigger] s0[q].2[j].0[k] == GroundVal::Sym(x);
            }
        }
        assert(syms_s(s) =~= edb_syms(edb));
    }
}

} // verus!
