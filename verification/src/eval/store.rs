//! Relation storage for the reference interpreter: per predicate, its arity,
//! its semiring, and each of its tuples once with the annotation derived so
//! far.
use vstd::prelude::*;
use crate::eval::value::{Ann, GroundVal, Semiring, ann_oplus, same_kind};
use crate::text::{lemma_text_lt_total, lemma_text_lt_trans, same_text, text_less, text_lt};
use crate::eval::coreir::CoreProgram;

verus! {

/// A ground tuple.
pub type Tuple = Vec<GroundVal>;

/// One relation: arity, semiring and its rows, each tuple once.
#[derive(Debug, PartialEq)]
pub struct Relation {
    pub arity: u32,
    pub semiring: Semiring,
    pub rows: Vec<(Tuple, Ann)>,
}

/// Rows as a map from tuples to annotations.
pub open spec fn rows_view(rows: Seq<(Tuple, Ann)>) -> Map<Seq<GroundVal>, Ann> {
    Map::new(
        |t: Seq<GroundVal>| exists|i: int| row_of(rows, t, i),
        |t: Seq<GroundVal>| rows[choose|i: int| row_of(rows, t, i)].1,
    )
}

/// Rows by content, in order.
pub open spec fn rows_v(rows: Seq<(Tuple, Ann)>) -> Seq<(Seq<GroundVal>, Ann)> {
    rows.map_values(|r: (Tuple, Ann)| (r.0@, r.1))
}

/// The first of the first `k` rows holding tuple `t`.
pub open spec fn find_upto(rows: Seq<(Seq<GroundVal>, Ann)>, t: Seq<GroundVal>, k: nat) -> Option<int>
    decreases k,
{
    if k == 0 {
        None
    } else {
        match find_upto(rows, t, (k - 1) as nat) {
            Some(i) => Some(i),
            None => if rows[k - 1].0 == t { Some(k - 1) } else { None },
        }
    }
}

/// The first row holding tuple `t`.
pub open spec fn find_row(rows: Seq<(Seq<GroundVal>, Ann)>, t: Seq<GroundVal>) -> Option<int> {
    find_upto(rows, t, rows.len())
}

/// `⊕`-combine tuple `t` with annotation `a` into rows: a new tuple is
/// appended; a present one takes the combined annotation when it improves.
/// Also whether the rows changed.
pub open spec fn combine_rows(rows: Seq<(Seq<GroundVal>, Ann)>, t: Seq<GroundVal>, a: Ann) -> (Seq<(Seq<GroundVal>, Ann)>, bool) {
    match find_row(rows, t) {
        None => (rows.push((t, a)), true),
        Some(i) => {
            let (m, better) = ann_oplus(rows[i].1, a);
            if better { (rows.update(i, (t, m)), true) } else { (rows, false) }
        },
    }
}

pub proof fn lemma_find_upto(rows: Seq<(Seq<GroundVal>, Ann)>, t: Seq<GroundVal>, k: nat)
    requires
        k <= rows.len(),
    ensures
        find_upto(rows, t, k) matches Some(i) ==> 0 <= i < k && rows[i].0 == t && forall|j: int| 0 <= j < i ==> rows[j].0 != t,
        find_upto(rows, t, k) is None ==> forall|j: int| 0 <= j < k ==> rows[j].0 != t,
    decreases k,
{
    if k > 0 {
        lemma_find_upto(rows, t, (k - 1) as nat);
    }
}

proof fn lemma_find_extends(rows: Seq<(Seq<GroundVal>, Ann)>, t: Seq<GroundVal>, k: nat, n: nat)
    requires
        k <= n,
        find_upto(rows, t, k) is Some,
    ensures
        find_upto(rows, t, n) == find_upto(rows, t, k),
    decreases n - k,
{
    if k < n {
        lemma_find_extends(rows, t, k, (n - 1) as nat);
    }
}

/// No tuple occurs twice among the rows.
pub open spec fn rows_distinct(rows: Seq<(Tuple, Ann)>) -> bool {
    forall|i: int, j: int| 0 <= i < j < rows.len() ==> (#[trigger] rows[i]).0@ != (#[trigger] rows[j]).0@
}

/// Row `i` is the one holding tuple `t`.
pub open spec fn row_of(rows: Seq<(Tuple, Ann)>, t: Seq<GroundVal>, i: int) -> bool {
    0 <= i < rows.len() && rows[i].0@ == t
}

impl Relation {
    /// No tuple occurs twice.
    pub open spec fn wf(&self) -> bool {
        rows_distinct(self.rows@)
    }

    /// The relation as a map from tuples to annotations.
    pub open spec fn view(&self) -> Map<Seq<GroundVal>, Ann> {
        rows_view(self.rows@)
    }

    /// An empty relation.
    pub fn new(arity: u32, semiring: Semiring) -> (r: Relation)
        ensures
            r.wf(),
            r.arity == arity,
            r.semiring == semiring,
            r.view() == Map::<Seq<GroundVal>, Ann>::empty(),
    {
        let r = Relation { arity, semiring, rows: Vec::new() };
        assert(r.view() =~= Map::<Seq<GroundVal>, Ann>::empty());
        r
    }

    /// Where `t` sits, if it is a row.
    pub fn find(&self, t: &Tuple) -> (r: Option<usize>)
        requires
            self.wf(),
        ensures
            match r {
                Some(i) => row_of(self.rows@, t@, i as int),
                None => !self.view().dom().contains(t@),
            },
            r matches Some(i) ==> find_row(rows_v(self.rows@), t@) == Some(i as int),
            r is None ==> find_row(rows_v(self.rows@), t@) is None,
    {
        let ghost rv = rows_v(self.rows@);
        let mut i: usize = 0;
        while i < self.rows.len()
            invariant
                i <= self.rows@.len(),
                rv == rows_v(self.rows@),
                forall|k: int| 0 <= k < i ==> (#[trigger] self.rows@[k]).0@ != t@,
                find_upto(rv, t@, i as nat) is None,
            decreases self.rows@.len() - i,
        {
            assert(rv[i as int].0 == self.rows@[i as int].0@);
            if same_tuple(&self.rows[i].0, t) {
                proof { lemma_find_extends(rv, t@, (i + 1) as nat, rv.len()); }
                return Some(i);
            }
            i = i + 1;
        }
        None
    }

    /// `⊕`-combine a derived tuple into the relation. Returns whether the
    /// relation changed: a new tuple, or a strictly better tropical weight.
    pub fn combine(&mut self, tuple: Tuple, ann: Ann) -> (changed: bool)
        requires
            old(self).wf(),
            old(self).view().dom().contains(tuple@) ==> same_kind(old(self).view()[tuple@], ann),
        ensures
            final(self).wf(),
            final(self).arity == old(self).arity,
            final(self).semiring == old(self).semiring,
            (rows_v(final(self).rows@), changed) == combine_rows(rows_v(old(self).rows@), tuple@, ann),
            !old(self).view().dom().contains(tuple@) ==> changed && final(self).view() == old(self).view().insert(tuple@, ann),
            old(self).view().dom().contains(tuple@) ==> {
                let (m, better) = ann_oplus(old(self).view()[tuple@], ann);
                &&& changed == better
                &&& final(self).view() == if better { old(self).view().insert(tuple@, m) } else { old(self).view() }
            },
    {
        let ghost v0 = self.view();
        match self.find(&tuple) {
            None => {
                let ghost t = tuple@;
                self.rows.push((tuple, ann));
                proof {
                    assert forall|i: int, j: int| 0 <= i < j < self.rows@.len() implies (#[trigger] self.rows@[i]).0@ != (#[trigger] self.rows@[j]).0@ by {
                        assert(rows_distinct(old(self).rows@));
                        if j == self.rows@.len() - 1 {
                            assert(old(self).rows@[i] == self.rows@[i]);
                            if self.rows@[i].0@ == t {
                                assert(row_of(old(self).rows@, t, i));
                            }
                        } else {
                            assert(old(self).rows@[i] == self.rows@[i] && old(self).rows@[j] == self.rows@[j]);
                        }
                    }
                    lemma_view_push(old(self).rows@, self.rows@, t, ann);
                    assert(rows_v(self.rows@) =~= rows_v(old(self).rows@).push((t, ann)));
                }
                true
            },
            Some(i) => {
                let existing = self.rows[i].1;
                proof {
                    lemma_view_at(self.rows@, tuple@, i as int);
                }
                let (merged, changed) = existing.oplus(ann);
                if changed {
                    let ghost t = tuple@;
                    self.rows.set(i, (tuple, merged));
                    proof {
                        assert forall|a: int, b: int| 0 <= a < b < self.rows@.len() implies (#[trigger] self.rows@[a]).0@ != (#[trigger] self.rows@[b]).0@ by {
                            if a != i as int && b != i as int {
                                assert(old(self).rows@[a] == self.rows@[a] && old(self).rows@[b] == self.rows@[b]);
                            } else if a == i as int {
                                assert(old(self).rows@[b] == self.rows@[b]);
                            } else {
                                assert(old(self).rows@[a] == self.rows@[a]);
                            }
                        }
                        lemma_view_set(old(self).rows@, self.rows@, i as int, merged);
                        assert(rows_v(self.rows@) =~= rows_v(old(self).rows@).update(i as int, (t, merged)));
                        assert(old(self).rows@[i as int].0@ == t);
                    }
                }
                changed
            },
        }
    }

    /// Number of tuples.
    pub fn len(&self) -> (n: usize)
        ensures
            n == self.rows@.len(),
    {
        self.rows.len()
    }

    /// No tuple yet.
    pub fn is_empty(&self) -> (b: bool)
        ensures
            b == (self.rows@.len() == 0),
    {
        self.rows.len() == 0
    }
}

/// Two tuples are the same values in the same order.
pub fn same_tuple(a: &Tuple, b: &Tuple) -> (r: bool)
    ensures
        r == (a@ == b@),
{
    if a.len() != b.len() {
        return false;
    }
    let mut i: usize = 0;
    while i < a.len()
        invariant
            i <= a@.len(),
            a@.len() == b@.len(),
            forall|k: int| 0 <= k < i ==> a@[k] == b@[k],
        decreases a@.len() - i,
    {
        if a[i] != b[i] {
            return false;
        }
        i = i + 1;
    }
    assert(a@ =~= b@);
    true
}

proof fn lemma_view_at(rows: Seq<(Tuple, Ann)>, t: Seq<GroundVal>, i: int)
    requires
        row_of(rows, t, i),
        rows_distinct(rows),
    ensures
        rows_view(rows).dom().contains(t),
        rows_view(rows)[t] == rows[i].1,
{
    let k = choose|k: int| row_of(rows, t, k);
    if k != i {
        if k < i { assert(rows[k].0@ != rows[i].0@); } else { assert(rows[i].0@ != rows[k].0@); }
    }
}

proof fn lemma_view_push(r0: Seq<(Tuple, Ann)>, r1: Seq<(Tuple, Ann)>, t: Seq<GroundVal>, ann: Ann)
    requires
        r1.len() == r0.len() + 1,
        forall|i: int| 0 <= i < r0.len() ==> r1[i] == r0[i],
        r1[r0.len() as int].0@ == t,
        r1[r0.len() as int].1 == ann,
        rows_distinct(r1),
    ensures
        rows_view(r1) == rows_view(r0).insert(t, ann),
{
    assert forall|u: Seq<GroundVal>| rows_view(r1).dom().contains(u) <==> rows_view(r0).insert(t, ann).dom().contains(u) by {
        if rows_view(r1).dom().contains(u) {
            let k = choose|k: int| row_of(r1, u, k);
            if k < r0.len() { assert(row_of(r0, u, k)); }
        }
        if rows_view(r0).dom().contains(u) {
            let k = choose|k: int| row_of(r0, u, k);
            assert(row_of(r1, u, k));
        }
        if u == t { assert(row_of(r1, u, r0.len() as int)); }
    }
    assert forall|u: Seq<GroundVal>| rows_view(r1).dom().contains(u) implies rows_view(r1)[u] == rows_view(r0).insert(t, ann)[u] by {
        let k = choose|k: int| row_of(r1, u, k);
        lemma_view_at(r1, u, k);
        if k < r0.len() {
            assert(r0[k] == r1[k]);
            assert(row_of(r0, u, k));
            assert(u != t) by {
                assert(r1[k].0@ != r1[r0.len() as int].0@);
            }
            let j = choose|j: int| row_of(r0, u, j);
            if j != k {
                assert(r1[j] == r0[j]);
                if j < k { assert(r1[j].0@ != r1[k].0@); } else { assert(r1[k].0@ != r1[j].0@); }
            }
        }
    }
    assert(rows_view(r1) =~= rows_view(r0).insert(t, ann));
}

proof fn lemma_view_set(r0: Seq<(Tuple, Ann)>, r1: Seq<(Tuple, Ann)>, i: int, ann: Ann)
    requires
        0 <= i < r0.len(),
        r1.len() == r0.len(),
        forall|k: int| 0 <= k < r0.len() && k != i ==> r1[k] == r0[k],
        r1[i].0@ == r0[i].0@,
        r1[i].1 == ann,
        rows_distinct(r0),
        rows_distinct(r1),
    ensures
        rows_view(r1) == rows_view(r0).insert(r0[i].0@, ann),
{
    let t = r0[i].0@;
    assert forall|u: Seq<GroundVal>| rows_view(r1).dom().contains(u) <==> rows_view(r0).insert(t, ann).dom().contains(u) by {
        if rows_view(r1).dom().contains(u) {
            let k = choose|k: int| row_of(r1, u, k);
            if k != i { assert(row_of(r0, u, k)); }
        }
        if rows_view(r0).dom().contains(u) {
            let k = choose|k: int| row_of(r0, u, k);
            assert(row_of(r1, u, k));
        }
        if u == t { assert(row_of(r1, u, i)); }
    }
    assert forall|u: Seq<GroundVal>| rows_view(r1).dom().contains(u) implies rows_view(r1)[u] == rows_view(r0).insert(t, ann)[u] by {
        let k = choose|k: int| row_of(r1, u, k);
        lemma_view_at(r1, u, k);
        if k != i {
            assert(row_of(r0, u, k));
            lemma_view_at(r0, u, k);
            assert(u != t) by {
                if k < i { assert(r0[k].0@ != r0[i].0@); } else { assert(r0[i].0@ != r0[k].0@); }
            }
        }
    }
    assert(rows_view(r1) =~= rows_view(r0).insert(t, ann));
}

/// The whole database: one relation per predicate.
#[derive(Debug, PartialEq)]
pub struct Db {
    pub rels: Vec<(String, Relation)>,
}

/// A relation by content: arity, semiring and its rows in order.
pub type RelS = (u32, Semiring, Seq<(Seq<GroundVal>, Ann)>);

/// A database by content: each held predicate's relation.
pub type DbS = Map<Seq<char>, RelS>;

pub open spec fn dbs(db: Db) -> DbS {
    Map::new(|p: Seq<char>| db.preds().contains(p), |p: Seq<char>| (db.rel(p).arity, db.rel(p).semiring, rows_v(db.rel(p).rows@)))
}

/// Combine one tuple into a database by content; whether it changed.
pub open spec fn insert_s(s: DbS, p: Seq<char>, t: Seq<GroundVal>, a: Ann) -> (DbS, bool) {
    let (rows, ch) = combine_rows(s[p].2, t, a);
    (s.insert(p, (s[p].0, s[p].1, rows)), ch)
}

/// Entry `i` holds predicate `pred`.
pub open spec fn rel_at(rels: Seq<(String, Relation)>, pred: Seq<char>, i: int) -> bool {
    0 <= i < rels.len() && rels[i].0@ == pred
}

/// Some name of `v` is `x`.
pub open spec fn names_has(v: Seq<String>, x: Seq<char>) -> bool {
    exists|i: int| 0 <= i < v.len() && (#[trigger] v[i])@ == x
}

/// Some predicate among the first `k` relations is `x`.
pub open spec fn rels_has(rels: Seq<(String, Relation)>, k: int, x: Seq<char>) -> bool {
    exists|j: int| 0 <= j < k && (#[trigger] rels[j]).0@ == x
}

/// Each predicate once, each relation without repeated tuples.
pub open spec fn rels_wf(rels: Seq<(String, Relation)>) -> bool {
    &&& forall|i: int, j: int| 0 <= i < j < rels.len() ==> (#[trigger] rels[i]).0@ != (#[trigger] rels[j]).0@
    &&& forall|i: int| 0 <= i < rels.len() ==> (#[trigger] rels[i]).1.wf()
}

pub open spec fn preds_of(rels: Seq<(String, Relation)>) -> Set<Seq<char>> {
    Set::new(|p: Seq<char>| exists|i: int| rel_at(rels, p, i))
}

pub open spec fn rel_of(rels: Seq<(String, Relation)>, pred: Seq<char>) -> Relation {
    rels[choose|i: int| rel_at(rels, pred, i)].1
}

impl Db {
    pub open spec fn wf(&self) -> bool {
        rels_wf(self.rels@)
    }

    /// The predicates the database holds.
    pub open spec fn preds(&self) -> Set<Seq<char>> {
        preds_of(self.rels@)
    }

    /// The relation of `pred`, for a predicate it holds.
    pub open spec fn rel(&self, pred: Seq<char>) -> Relation {
        rel_of(self.rels@, pred)
    }

    /// An empty relation for every predicate the program declares; a
    /// predicate declared twice keeps its last declaration.
    pub fn from_program(prog: &CoreProgram) -> (db: Db)
        ensures
            db.wf(),
            forall|p: Seq<char>| #[trigger] db.preds().contains(p) <==> exists|k: int| 0 <= k < prog.predicates@.len() && prog.predicates@[k].name@ == p,
            forall|k: int| 0 <= k < prog.predicates@.len()
                && (forall|l: int| k < l < prog.predicates@.len() ==> prog.predicates@[l].name@ != prog.predicates@[k].name@)
                ==> {
                    let r = #[trigger] db.rel(prog.predicates@[k].name@);
                    &&& r.arity == prog.predicates@[k].arity
                    &&& r.semiring == prog.predicates@[k].semiring
                    &&& r.view() == Map::<Seq<GroundVal>, Ann>::empty()
                },
    {
        let mut db = Db { rels: Vec::new() };
        let mut k: usize = 0;
        while k < prog.predicates.len()
            invariant
                k <= prog.predicates@.len(),
                db.wf(),
                forall|p: Seq<char>| #[trigger] db.preds().contains(p) <==> exists|q: int| 0 <= q < k && prog.predicates@[q].name@ == p,
                forall|q: int| 0 <= q < k
                    && (forall|l: int| q < l < k ==> prog.predicates@[l].name@ != prog.predicates@[q].name@)
                    ==> {
                        let r = #[trigger] db.rel(prog.predicates@[q].name@);
                        &&& r.arity == prog.predicates@[q].arity
                        &&& r.semiring == prog.predicates@[q].semiring
                        &&& r.view() == Map::<Seq<GroundVal>, Ann>::empty()
                    },
            decreases prog.predicates@.len() - k,
        {
            let p = &prog.predicates[k];
            let rel = Relation::new(p.arity, p.semiring);
            let ghost old_db = db;
            db.put(p.name.clone(), rel);
            proof {
                assert forall|q: int| 0 <= q < k + 1
                    && (forall|l: int| q < l < k + 1 ==> prog.predicates@[l].name@ != prog.predicates@[q].name@)
                    implies {
                        let r = #[trigger] db.rel(prog.predicates@[q].name@);
                        &&& r.arity == prog.predicates@[q].arity
                        &&& r.semiring == prog.predicates@[q].semiring
                        &&& r.view() == Map::<Seq<GroundVal>, Ann>::empty()
                    } by {
                    if q < k {
                        assert(prog.predicates@[k as int].name@ != prog.predicates@[q].name@);
                        assert(old_db.preds().contains(prog.predicates@[q].name@));
                    }
                }
                assert forall|pn: Seq<char>| #[trigger] db.preds().contains(pn) <==> exists|q: int| 0 <= q < k + 1 && prog.predicates@[q].name@ == pn by {
                    if exists|q: int| 0 <= q < k + 1 && prog.predicates@[q].name@ == pn {
                        let q = choose|q: int| 0 <= q < k + 1 && prog.predicates@[q].name@ == pn;
                        if q < k {
                            assert(old_db.preds().contains(pn));
                        }
                    }
                    if db.preds().contains(pn) && pn != prog.predicates@[k as int].name@ {
                        assert(old_db.preds().contains(pn));
                    }
                }
            }
            k = k + 1;
        }
        db
    }

    /// Where `pred` sits, if the database holds it.
    pub fn find(&self, pred: &str) -> (r: Option<usize>)
        ensures
            match r {
                Some(i) => rel_at(self.rels@, pred@, i as int),
                None => !self.preds().contains(pred@),
            },
    {
        let mut i: usize = 0;
        while i < self.rels.len()
            invariant
                i <= self.rels@.len(),
                forall|k: int| 0 <= k < i ==> (#[trigger] self.rels@[k]).0@ != pred@,
            decreases self.rels@.len() - i,
        {
            if same_text(self.rels[i].0.as_str(), pred) {
                return Some(i);
            }
            i = i + 1;
        }
        None
    }

    /// Set the relation of `name`, replacing any it had.
    fn put(&mut self, name: String, rel: Relation)
        requires
            old(self).wf(),
            rel.wf(),
        ensures
            final(self).wf(),
            final(self).preds() == old(self).preds().insert(name@),
            final(self).rel(name@) == rel,
            forall|p: Seq<char>| p != name@ && #[trigger] old(self).preds().contains(p) ==> final(self).rel(p) == old(self).rel(p),
    {
        match self.find(name.as_str()) {
            Some(i) => {
                self.rels.set(i, (name, rel));
                proof { lemma_rels_set(old(self).rels@, self.rels@, i as int); }
            },
            None => {
                let ghost n = name@;
                self.rels.push((name, rel));
                proof { lemma_rels_push(old(self).rels@, self.rels@, n); }
            },
        }
    }

    /// The relation of `pred`, if any.
    pub fn relation(&self, pred: &str) -> (r: Option<&Relation>)
        requires
            self.wf(),
        ensures
            match r {
                Some(rel) => self.preds().contains(pred@) && *rel == self.rel(pred@),
                None => !self.preds().contains(pred@),
            },
    {
        match self.find(pred) {
            Some(i) => {
                proof { lemma_rel_at_unique(self.rels@, pred@, i as int); }
                Some(&self.rels[i].1)
            },
            None => None,
        }
    }

    /// The relation of `pred`, to change in place, if the database holds it;
    /// the other relations stay as they are.
    pub fn relation_mut(&mut self, pred: &str) -> (r: Option<&mut Relation>)
        requires
            old(self).wf(),
        ensures
            match r {
                Some(rel) => {
                    &&& old(self).preds().contains(pred@)
                    &&& *rel == old(self).rel(pred@)
                    &&& exists|i: int| rel_at(old(self).rels@, pred@, i)
                        && final(self).rels@ == old(self).rels@.update(i, (old(self).rels@[i].0, *final(rel)))
                },
                None => !old(self).preds().contains(pred@) && *final(self) == *old(self),
            },
    {
        match self.find(pred) {
            Some(i) => {
                proof { lemma_rel_at_unique(self.rels@, pred@, i as int); }
                Some(&mut self.rels[i].1)
            },
            None => None,
        }
    }

    /// The names of the predicates the database holds, in code-point order.
    pub fn predicates(&self) -> (names: Vec<String>)
        requires
            self.wf(),
        ensures
            forall|i: int, j: int| 0 <= i < j < names@.len() ==> text_lt((#[trigger] names@[i])@, (#[trigger] names@[j])@),
            forall|p: Seq<char>| self.preds().contains(p) <==> exists|i: int| 0 <= i < names@.len() && (#[trigger] names@[i])@ == p,
    {
        let mut out: Vec<String> = Vec::new();
        let mut k: usize = 0;
        while k < self.rels.len()
            invariant
                k <= self.rels@.len(),
                rels_wf(self.rels@),
                forall|i: int, j: int| 0 <= i < j < out@.len() ==> text_lt((#[trigger] out@[i])@, (#[trigger] out@[j])@),
                forall|x: Seq<char>| #![trigger names_has(out@, x)] #![trigger rels_has(self.rels@, k as int, x)]
                    names_has(out@, x) <==> rels_has(self.rels@, k as int, x),
            decreases self.rels@.len() - k,
        {
            let name = self.rels[k].0.as_str();
            let ghost nm = name@;
            assert(nm == self.rels@[k as int].0@);
            assert forall|i: int| 0 <= i < out@.len() implies (#[trigger] out@[i])@ != nm by {
                if out@[i]@ == nm {
                    assert(names_has(out@, nm));
                    assert(rels_has(self.rels@, k as int, nm));
                    let j = choose|j: int| 0 <= j < k && (#[trigger] self.rels@[j]).0@ == nm;
                    assert(self.rels@[j].0@ != self.rels@[k as int].0@);
                }
            }
            let mut p: usize = 0;
            while p < out.len() && !text_less(name, out[p].as_str())
                invariant
                    p <= out@.len(),
                    name@ == nm,
                    forall|q: int| 0 <= q < p ==> text_lt((#[trigger] out@[q])@, nm),
                    forall|i: int| 0 <= i < out@.len() ==> (#[trigger] out@[i])@ != nm,
                decreases out@.len() - p,
            {
                proof { lemma_text_lt_total(out@[p as int]@, nm); }
                p = p + 1;
            }
            let ghost o0 = out@;
            let s = name.to_string();
            out.insert(p, s);
            proof {
                assert(out@ == o0.insert(p as int, s));
                if p < o0.len() {
                    assert(text_lt(nm, o0[p as int]@));
                }
                assert forall|i: int, j: int| 0 <= i < j < out@.len() implies text_lt((#[trigger] out@[i])@, (#[trigger] out@[j])@) by {
                    if j < p {
                        assert(out@[i] == o0[i] && out@[j] == o0[j]);
                    } else if j == p {
                        assert(out@[i] == o0[i]);
                    } else if i < p {
                        assert(out@[i] == o0[i] && out@[j] == o0[j - 1]);
                        assert(text_lt(o0[i]@, nm));
                        if j - 1 > p {
                            assert(text_lt(o0[p as int]@, o0[j - 1]@));
                            lemma_text_lt_trans(nm, o0[p as int]@, o0[j - 1]@);
                        }
                        lemma_text_lt_trans(o0[i]@, nm, o0[j - 1]@);
                    } else if i == p {
                        assert(out@[j] == o0[j - 1]);
                        if j - 1 > p {
                            assert(text_lt(o0[p as int]@, o0[j - 1]@));
                            lemma_text_lt_trans(nm, o0[p as int]@, o0[j - 1]@);
                        }
                    } else {
                        assert(out@[i] == o0[i - 1] && out@[j] == o0[j - 1]);
                    }
                }
                assert forall|x: Seq<char>| #![trigger names_has(out@, x)] #![trigger rels_has(self.rels@, k + 1, x)]
                    names_has(out@, x) <==> rels_has(self.rels@, k + 1, x) by {
                    if names_has(out@, x) {
                        let i = choose|i: int| 0 <= i < out@.len() && (#[trigger] out@[i])@ == x;
                        if i < p {
                            assert(out@[i] == o0[i]);
                            assert(names_has(o0, x));
                        } else if i > p {
                            assert(out@[i] == o0[i - 1]);
                            assert(names_has(o0, x));
                        } else {
                            assert(self.rels@[k as int].0@ == x);
                        }
                    }
                    if rels_has(self.rels@, k + 1, x) {
                        let j = choose|j: int| 0 <= j < k + 1 && (#[trigger] self.rels@[j]).0@ == x;
                        if j == k {
                            assert(out@[p as int]@ == x);
                        } else {
                            assert(rels_has(self.rels@, k as int, x));
                            assert(names_has(o0, x));
                            let i = choose|i: int| 0 <= i < o0.len() && (#[trigger] o0[i])@ == x;
                            if i < p {
                                assert(out@[i] == o0[i]);
                            } else {
                                assert(out@[i + 1] == o0[i]);
                            }
                        }
                    }
                }
            }
            k = k + 1;
        }
        proof {
            assert forall|x: Seq<char>| self.preds().contains(x) <==> exists|i: int| 0 <= i < out@.len() && (#[trigger] out@[i])@ == x by {
                if self.preds().contains(x) {
                    let j = choose|j: int| rel_at(self.rels@, x, j);
                    assert(self.rels@[j].0@ == x);
                    assert(rels_has(self.rels@, self.rels@.len() as int, x));
                    assert(names_has(out@, x));
                }
                if names_has(out@, x) {
                    assert(rels_has(self.rels@, self.rels@.len() as int, x));
                    let j = choose|j: int| 0 <= j < self.rels@.len() && (#[trigger] self.rels@[j]).0@ == x;
                    assert(rel_at(self.rels@, x, j));
                }
            }
        }
        out
    }

    /// Combine a tuple into `pred`'s relation; whether it changed.
    pub fn insert(&mut self, pred: &str, tuple: Tuple, ann: Ann) -> (changed: bool)
        requires
            old(self).wf(),
            old(self).preds().contains(pred@),
            old(self).rel(pred@).view().dom().contains(tuple@) ==> same_kind(old(self).rel(pred@).view()[tuple@], ann),
        ensures
            final(self).wf(),
            final(self).preds() == old(self).preds(),
            forall|p: Seq<char>| p != pred@ && #[trigger] old(self).preds().contains(p) ==> final(self).rel(p) == old(self).rel(p),
            final(self).rel(pred@).arity == old(self).rel(pred@).arity,
            final(self).rel(pred@).semiring == old(self).rel(pred@).semiring,
            (dbs(*final(self)), changed) == insert_s(dbs(*old(self)), pred@, tuple@, ann),
            !old(self).rel(pred@).view().dom().contains(tuple@) ==> changed
                && final(self).rel(pred@).view() == old(self).rel(pred@).view().insert(tuple@, ann),
            old(self).rel(pred@).view().dom().contains(tuple@) ==> {
                let (m, better) = ann_oplus(old(self).rel(pred@).view()[tuple@], ann);
                &&& changed == better
                &&& final(self).rel(pred@).view() == if better { old(self).rel(pred@).view().insert(tuple@, m) } else { old(self).rel(pred@).view() }
            },
    {
        let i = match self.find(pred) {
            Some(i) => i,
            None => { assert(false); 0 },
        };
        proof { lemma_rel_at_unique(self.rels@, pred@, i as int); }
        let (name, mut rel) = self.rels.remove(i);
        let changed = rel.combine(tuple, ann);
        self.rels.insert(i, (name, rel));
        proof {
            assert forall|a: int| 0 <= a < self.rels@.len() && a != i as int implies self.rels@[a] == old(self).rels@[a] by {
                if a < i { } else { }
            }
            lemma_rels_set(old(self).rels@, self.rels@, i as int);
            let s1 = insert_s(dbs(*old(self)), pred@, tuple@, ann).0;
            assert(dbs(*self) =~= s1) by {
                assert forall|p: Seq<char>| #[trigger] dbs(*self).dom().contains(p) implies dbs(*self)[p] == s1[p] by {
                    if p != pred@ {
                        assert(old(self).preds().contains(p));
                    }
                }
            }
        }
        changed
    }
}

proof fn lemma_rel_at_unique(rels: Seq<(String, Relation)>, pred: Seq<char>, i: int)
    requires
        rel_at(rels, pred, i),
        forall|a: int, b: int| 0 <= a < b < rels.len() ==> (#[trigger] rels[a]).0@ != (#[trigger] rels[b]).0@,
    ensures
        (choose|k: int| rel_at(rels, pred, k)) == i,
        rel_of(rels, pred) == rels[i].1,
        preds_of(rels).contains(pred),
{
    let k = choose|k: int| rel_at(rels, pred, k);
    if k != i {
        if k < i { assert(rels[k].0@ != rels[i].0@); } else { assert(rels[i].0@ != rels[k].0@); }
    }
}

proof fn lemma_rels_set(r0: Seq<(String, Relation)>, r1: Seq<(String, Relation)>, i: int)
    requires
        0 <= i < r0.len(),
        r1.len() == r0.len(),
        forall|a: int| 0 <= a < r0.len() && a != i ==> r1[a] == r0[a],
        r1[i].0@ == r0[i].0@,
        r1[i].1.wf(),
        rels_wf(r0),
    ensures
        rels_wf(r1),
        preds_of(r1) == preds_of(r0),
        rel_of(r1, r0[i].0@) == r1[i].1,
        forall|p: Seq<char>| p != r0[i].0@ && #[trigger] preds_of(r0).contains(p) ==> rel_of(r1, p) == rel_of(r0, p),
{
    assert forall|a: int, b: int| 0 <= a < b < r1.len() implies (#[trigger] r1[a]).0@ != (#[trigger] r1[b]).0@ by {
        if a != i && b != i { assert(r1[a] == r0[a] && r1[b] == r0[b]); }
        else if a == i { assert(r1[b] == r0[b]); } else { assert(r1[a] == r0[a]); }
    }
    assert forall|a: int| 0 <= a < r1.len() implies (#[trigger] r1[a]).1.wf() by {
        if a != i { assert(r1[a] == r0[a]); }
    }
    assert forall|p: Seq<char>| preds_of(r1).contains(p) <==> preds_of(r0).contains(p) by {
        if preds_of(r1).contains(p) {
            let k = choose|k: int| rel_at(r1, p, k);
            if k != i { assert(rel_at(r0, p, k)); } else { assert(rel_at(r0, p, i)); }
        }
        if preds_of(r0).contains(p) {
            let k = choose|k: int| rel_at(r0, p, k);
            if k != i { assert(rel_at(r1, p, k)); } else { assert(rel_at(r1, p, i)); }
        }
    }
    assert(preds_of(r1) =~= preds_of(r0));
    lemma_rel_at_unique(r1, r0[i].0@, i);
    assert forall|p: Seq<char>| p != r0[i].0@ && #[trigger] preds_of(r0).contains(p) implies rel_of(r1, p) == rel_of(r0, p) by {
        let k = choose|k: int| rel_at(r0, p, k);
        lemma_rel_at_unique(r0, p, k);
        assert(k != i);
        assert(rel_at(r1, p, k));
        lemma_rel_at_unique(r1, p, k);
    }
}

proof fn lemma_rels_push(r0: Seq<(String, Relation)>, r1: Seq<(String, Relation)>, n: Seq<char>)
    requires
        r1.len() == r0.len() + 1,
        forall|a: int| 0 <= a < r0.len() ==> r1[a] == r0[a],
        r1[r0.len() as int].0@ == n,
        r1[r0.len() as int].1.wf(),
        !preds_of(r0).contains(n),
        rels_wf(r0),
    ensures
        rels_wf(r1),
        preds_of(r1) == preds_of(r0).insert(n),
        rel_of(r1, n) == r1[r0.len() as int].1,
        forall|p: Seq<char>| p != n && #[trigger] preds_of(r0).contains(p) ==> rel_of(r1, p) == rel_of(r0, p),
{
    let i = r0.len() as int;
    assert forall|a: int, b: int| 0 <= a < b < r1.len() implies (#[trigger] r1[a]).0@ != (#[trigger] r1[b]).0@ by {
        if b != i { assert(r1[a] == r0[a] && r1[b] == r0[b]); }
        else {
            assert(r1[a] == r0[a]);
            if r0[a].0@ == n { assert(rel_at(r0, n, a)); }
        }
    }
    assert forall|a: int| 0 <= a < r1.len() implies (#[trigger] r1[a]).1.wf() by {
        if a != i { assert(r1[a] == r0[a]); }
    }
    assert forall|p: Seq<char>| preds_of(r1).contains(p) <==> preds_of(r0).insert(n).contains(p) by {
        if preds_of(r1).contains(p) {
            let k = choose|k: int| rel_at(r1, p, k);
            if k != i { assert(rel_at(r0, p, k)); }
        }
        if preds_of(r0).contains(p) {
            let k = choose|k: int| rel_at(r0, p, k);
            assert(rel_at(r1, p, k));
        }
        if p == n { assert(rel_at(r1, p, i)); }
    }
    assert(preds_of(r1) =~= preds_of(r0).insert(n));
    lemma_rel_at_unique(r1, n, i);
    assert forall|p: Seq<char>| p != n && #[trigger] preds_of(r0).contains(p) implies rel_of(r1, p) == rel_of(r0, p) by {
        let k = choose|k: int| rel_at(r0, p, k);
        lemma_rel_at_unique(r0, p, k);
        assert(rel_at(r1, p, k));
        lemma_rel_at_unique(r1, p, k);
    }
}


/// A row of a held relation is in its view, with its annotation.
pub proof fn lemma_row_in_view(db: Db, p: Seq<char>, k: int)
    requires
        db.wf(),
        db.preds().contains(p),
        0 <= k < db.rel(p).rows@.len(),
    ensures
        db.rel(p).wf(),
        db.rel(p).view().dom().contains(db.rel(p).rows@[k].0@),
        db.rel(p).view()[db.rel(p).rows@[k].0@] == db.rel(p).rows@[k].1,
{
    let i = choose|i: int| rel_at(db.rels@, p, i);
    assert(db.rels@[i].1.wf());
    lemma_view_at(db.rel(p).rows@, db.rel(p).rows@[k].0@, k);
}


/// A held relation of a well-formed database has no repeated tuple.
pub proof fn lemma_rel_wf(db: Db, p: Seq<char>)
    requires
        db.wf(),
        db.preds().contains(p),
    ensures
        db.rel(p).wf(),
{
    let i = choose|i: int| rel_at(db.rels@, p, i);
    lemma_rel_at_unique(db.rels@, p, i);
}

/// Two well-formed databases with the same content agree on every held
/// relation: its rows (by content), its view, its arity and semiring.
pub proof fn lemma_same_content(a: Db, b: Db, p: Seq<char>)
    requires
        a.wf(),
        b.wf(),
        dbs(a) == dbs(b),
    ensures
        a.preds() == b.preds(),
        a.preds().contains(p) ==> {
            &&& rows_v(a.rel(p).rows@) == rows_v(b.rel(p).rows@)
            &&& a.rel(p).rows@.len() == b.rel(p).rows@.len()
            &&& a.rel(p).view() == b.rel(p).view()
            &&& a.rel(p).semiring == b.rel(p).semiring
            &&& a.rel(p).arity == b.rel(p).arity
            &&& forall|k: int| 0 <= k < a.rel(p).rows@.len() ==> (#[trigger] a.rel(p).rows@[k]).0@ == b.rel(p).rows@[k].0@ && a.rel(p).rows@[k].1 == b.rel(p).rows@[k].1
        },
{
    assert(dbs(a).dom() =~= a.preds());
    assert(dbs(b).dom() =~= b.preds());
    if a.preds().contains(p) {
        let ra = a.rel(p).rows@;
        let rb = b.rel(p).rows@;
        assert(dbs(a)[p] == dbs(b)[p]);
        assert(rows_v(ra) == rows_v(rb));
        assert(ra.len() == rows_v(ra).len() && rb.len() == rows_v(rb).len());
        assert forall|k: int| 0 <= k < ra.len() implies (#[trigger] ra[k]).0@ == rb[k].0@ && ra[k].1 == rb[k].1 by {
            assert(rows_v(ra)[k] == rows_v(rb)[k]);
        }
        lemma_rel_wf(a, p);
        lemma_rel_wf(b, p);
        assert forall|t: Seq<GroundVal>| rows_view(ra).dom().contains(t) <==> rows_view(rb).dom().contains(t) by {
            if rows_view(ra).dom().contains(t) {
                let i = choose|i: int| row_of(ra, t, i);
                assert(row_of(rb, t, i));
            }
            if rows_view(rb).dom().contains(t) {
                let i = choose|i: int| row_of(rb, t, i);
                assert(row_of(ra, t, i));
            }
        }
        assert forall|t: Seq<GroundVal>| rows_view(ra).dom().contains(t) implies rows_view(ra)[t] == rows_view(rb)[t] by {
            let i = choose|i: int| row_of(ra, t, i);
            assert(row_of(rb, t, i));
            lemma_view_at(ra, t, i);
            lemma_view_at(rb, t, i);
        }
        assert(rows_view(ra) =~= rows_view(rb));
    }
}


/// Entry `i` of a well-formed database holds its predicate's relation.
pub proof fn lemma_rel_at(db: Db, i: int)
    requires
        db.wf(),
        0 <= i < db.rels@.len(),
    ensures
        db.preds().contains(db.rels@[i].0@),
        db.rel(db.rels@[i].0@) == db.rels@[i].1,
{
    lemma_rel_at_unique(db.rels@, db.rels@[i].0@, i);
}

/// A held predicate sits at some entry.
pub proof fn lemma_rel_some(db: Db, p: Seq<char>)
    requires
        db.wf(),
        db.preds().contains(p),
    ensures
        exists|i: int| 0 <= i < db.rels@.len() && db.rels@[i].0@ == p && db.rel(p) == #[trigger] db.rels@[i].1,
{
    let i = choose|i: int| rel_at(db.rels@, p, i);
    lemma_rel_at_unique(db.rels@, p, i);
}

} // verus!
