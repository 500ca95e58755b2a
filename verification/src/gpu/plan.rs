//! Query planning for worst-case-optimal joins: GYO hypertree decomposition
//! and a Selinger-style cost-based variable order.
use vstd::prelude::*;
use std::collections::HashMap;
use crate::math::lemma_push_to_set;
use crate::gpu::contraction::{contraction_order, elim_width, interaction, min_degree_order};

verus! {

/// A logic variable (query attribute).
pub type Var = u32;

/// One body atom: a relation applied to a list of variables.
#[derive(Clone, Debug, PartialEq, Eq)]
pub struct Atom {
    pub rel: String,
    pub vars: Vec<Var>,
}

impl Atom {
    /// The atom `rel(vars…)`.
    pub fn new(rel: &str, vars: &[Var]) -> (a: Atom)
        ensures
            a.rel@ == rel@,
            a.vars@ == vars@,
    {
        Atom { rel: String::from_str(rel), vars: vstd::slice::slice_to_vec(vars) }
    }
}

/// A conjunctive query body (the atoms to join).
#[derive(Clone, Debug)]
pub struct Query {
    pub atoms: Vec<Atom>,
}

/// Strictly increasing.
pub open spec fn increasing(s: Seq<u32>) -> bool {
    forall|i: int, j: int| 0 <= i < j < s.len() ==> s[i] < s[j]
}

/// Every variable of every atom.
pub open spec fn all_vars(atoms: Seq<Atom>) -> Set<u32> {
    Set::new(|v: u32| exists|i: int| 0 <= i < atoms.len() && (#[trigger] atoms[i]).vars@.contains(v))
}

/// Insert `x` into a strictly increasing vector, keeping it so.
pub(crate) fn insert_sorted(v: &mut Vec<u32>, x: u32)
    requires
        increasing(old(v)@),
    ensures
        increasing(final(v)@),
        final(v)@.to_set() == old(v)@.to_set().insert(x),
{
    let mut i: usize = 0;
    while i < v.len() && v[i] < x
        invariant
            i <= v@.len(),
            forall|q: int| 0 <= q < i ==> v@[q] < x,
        decreases v@.len() - i,
    {
        i = i + 1;
    }
    if i < v.len() && v[i] == x {
        assert(v@.to_set() =~= v@.to_set().insert(x)) by {
            assert(v@.contains(x)) by { assert(v@[i as int] == x); }
        }
        return;
    }
    let ghost old_v = v@;
    v.insert(i, x);
    proof {
        assert(v@ =~= old_v.subrange(0, i as int).push(x) + old_v.subrange(i as int, old_v.len() as int));
        assert forall|a: int, b: int| 0 <= a < b < v@.len() implies v@[a] < v@[b] by {
            if a < i && b > i {
                assert(v@[b] == old_v[b - 1]);
            }
            if a > i {
                assert(v@[a] == old_v[a - 1]);
                assert(v@[b] == old_v[b - 1]);
            }
            if a == i && b > i {
                assert(v@[b] == old_v[b - 1]);
                assert(i < old_v.len() ==> old_v[i as int] >= x);
                assert(old_v[i as int] != x);
            }
        }
        assert forall|y: u32| v@.to_set().contains(y) <==> old_v.to_set().insert(x).contains(y) by {
            if v@.contains(y) {
                let k = choose|k: int| 0 <= k < v@.len() && v@[k] == y;
                if k < i {
                    assert(old_v[k] == y);
                } else if k > i {
                    assert(old_v[k - 1] == y);
                }
            }
            if old_v.contains(y) {
                let k = choose|k: int| 0 <= k < old_v.len() && old_v[k] == y;
                if k < i {
                    assert(v@[k] == y);
                } else {
                    assert(v@[k + 1] == y);
                }
            }
            if y == x {
                assert(v@[i as int] == x);
            }
        }
        assert(v@.to_set() =~= old_v.to_set().insert(x));
    }
}

/// The distinct values of `s`, ascending.
fn sorted_distinct(s: &[u32]) -> (r: Vec<u32>)
    ensures
        increasing(r@),
        r@.to_set() == s@.to_set(),
{
    let mut r: Vec<u32> = Vec::new();
    let mut i: usize = 0;
    while i < s.len()
        invariant
            i <= s@.len(),
            increasing(r@),
            r@.to_set() == s@.take(i as int).to_set(),
        decreases s@.len() - i,
    {
        insert_sorted(&mut r, s[i]);
        proof {
            assert(s@.take(i + 1) =~= s@.take(i as int).push(s@[i as int]));
            lemma_push_to_set(s@.take(i as int), s@[i as int]);
        }
        i = i + 1;
    }
    assert(s@.take(s@.len() as int) =~= s@);
    r
}

impl Query {
    /// The query over `atoms`.
    pub fn new(atoms: Vec<Atom>) -> (q: Query)
        ensures
            q.atoms@ == atoms@,
    {
        Query { atoms }
    }

    /// All distinct variables in the body, ascending.
    pub fn vars(&self) -> (r: Vec<Var>)
        ensures
            increasing(r@),
            r@.to_set() == all_vars(self.atoms@),
    {
        let mut r: Vec<u32> = Vec::new();
        let mut i: usize = 0;
        while i < self.atoms.len()
            invariant
                i <= self.atoms@.len(),
                increasing(r@),
                r@.to_set() == all_vars(self.atoms@.take(i as int)),
            decreases self.atoms@.len() - i,
        {
            let a = &self.atoms[i];
            let mut k: usize = 0;
            let ghost base = r@.to_set();
            while k < a.vars.len()
                invariant
                    k <= a.vars@.len(),
                    increasing(r@),
                    r@.to_set() == base.union(a.vars@.take(k as int).to_set()),
                decreases a.vars@.len() - k,
            {
                insert_sorted(&mut r, a.vars[k]);
                proof {
                    assert(a.vars@.take(k + 1) =~= a.vars@.take(k as int).push(a.vars@[k as int]));
                    lemma_push_to_set(a.vars@.take(k as int), a.vars@[k as int]);
                    assert(r@.to_set() =~= base.union(a.vars@.take(k + 1).to_set()));
                }
                k = k + 1;
            }
            proof {
                assert(a.vars@.take(a.vars@.len() as int) =~= a.vars@);
                let pre = self.atoms@.take(i as int);
                let post = self.atoms@.take(i + 1);
                assert forall|v: u32| all_vars(post).contains(v) <==> base.union(a.vars@.to_set()).contains(v) by {
                    if all_vars(post).contains(v) {
                        let j = choose|j: int| 0 <= j < post.len() && (#[trigger] post[j]).vars@.contains(v);
                        if j < i {
                            assert(pre[j] == post[j]);
                            assert(all_vars(pre).contains(v));
                        } else {
                            assert(post[j] == a);
                        }
                    }
                    if base.contains(v) {
                        let j = choose|j: int| 0 <= j < pre.len() && (#[trigger] pre[j]).vars@.contains(v);
                        assert(post[j] == pre[j]);
                    }
                    if a.vars@.to_set().contains(v) {
                        assert(post[i as int] == a);
                    }
                }
                assert(all_vars(post) =~= base.union(a.vars@.to_set()));
            }
            i = i + 1;
        }
        assert(self.atoms@.take(self.atoms@.len() as int) =~= self.atoms@);
        r
    }
}


/// The result of decomposing a query's hypergraph.
#[derive(Clone, Debug, PartialEq, Eq)]
pub struct Decomposition {
    /// True iff the query is α-acyclic (GYO reduces it fully).
    pub acyclic: bool,
    /// Max bag size (in atoms). 1 iff acyclic; else the cyclic-core size.
    pub width: usize,
    /// Atom indices GYO could not peel off — a single WCOJ bag.
    pub cyclic_core: Vec<usize>,
    /// Ear-removal order as `(atom, parent atom)`.
    pub join_tree: Vec<(usize, Option<usize>)>,
}

/// Variable `v` of atom `e` also occurs in another alive atom.
pub open spec fn occurs_elsewhere(vs: Seq<Seq<u32>>, alive: Seq<usize>, e: usize, v: u32) -> bool {
    exists|o: int| 0 <= o < alive.len() && alive[o] != e && (#[trigger] vs[alive[o] as int]).contains(v)
}

/// The variables atom `e` shares with the other alive atoms (in `vs[e]` order).
pub open spec fn shared(vs: Seq<Seq<u32>>, alive: Seq<usize>, e: usize) -> Seq<u32> {
    vs[e as int].filter(|v: u32| occurs_elsewhere(vs, alive, e, v))
}

/// Atom `o` contains every variable of `sh`.
pub open spec fn covers(vs: Seq<Seq<u32>>, o: usize, sh: Seq<u32>) -> bool {
    forall|k: int| 0 <= k < sh.len() ==> vs[o as int].contains(#[trigger] sh[k])
}

/// The first alive atom from position `idx` on (other than `e`) that contains
/// all of `sh`: the ear's parent.
pub open spec fn witness_from(vs: Seq<Seq<u32>>, alive: Seq<usize>, e: usize, sh: Seq<u32>, idx: int) -> Option<usize>
    decreases alive.len() - idx,
{
    if idx < 0 || idx >= alive.len() {
        None
    } else if alive[idx] != e && covers(vs, alive[idx], sh) {
        Some(alive[idx])
    } else {
        witness_from(vs, alive, e, sh, idx + 1)
    }
}

/// The first ear among the alive atoms from position `idx` on, as
/// `(position, atom, parent)`.
pub open spec fn ear_from(vs: Seq<Seq<u32>>, alive: Seq<usize>, idx: int) -> Option<(int, usize, Option<usize>)>
    decreases alive.len() - idx,
{
    if idx < 0 || idx >= alive.len() {
        None
    } else {
        let e = alive[idx];
        let sh = shared(vs, alive, e);
        let w = witness_from(vs, alive, e, sh, 0);
        if sh.len() == 0 || w is Some {
            Some((idx, e, w))
        } else {
            ear_from(vs, alive, idx + 1)
        }
    }
}

/// GYO ear removal: peel the first ear until none remains; returns the residue
/// (the cyclic core) and the removal order.
pub open spec fn gyo(vs: Seq<Seq<u32>>, alive: Seq<usize>, tree: Seq<(usize, Option<usize>)>) -> (Seq<usize>, Seq<(usize, Option<usize>)>)
    decreases alive.len(),
{
    match ear_from(vs, alive, 0) {
        None => (alive, tree),
        Some((pos, e, w)) => if 0 <= pos < alive.len() {
            gyo(vs, alive.remove(pos), tree.push((e, w)))
        } else {
            (alive, tree)
        },
    }
}

/// The variable sets of the query's atoms.
pub open spec fn var_sets(q: Query, vs: Seq<Seq<u32>>) -> bool {
    &&& vs.len() == q.atoms@.len()
    &&& forall|i: int| 0 <= i < vs.len() ==> (#[trigger] vs[i]).to_set() == q.atoms@[i].vars@.to_set()
}

proof fn lemma_filter_push<A>(s: Seq<A>, x: A, p: spec_fn(A) -> bool)
    ensures
        s.push(x).filter(p) == if p(x) { s.filter(p).push(x) } else { s.filter(p) },
{
    reveal_with_fuel(Seq::filter, 1);
    assert(s.push(x).drop_last() =~= s);
}

/// All alive positions hold valid, distinct atom indices.
pub open spec fn alive_ok(alive: Seq<usize>, n: nat) -> bool {
    &&& forall|i: int| 0 <= i < alive.len() ==> (#[trigger] alive[i]) < n
    &&& forall|i: int, j: int| 0 <= i < j < alive.len() ==> alive[i] != alive[j]
}

fn find_witness(vs: &Vec<Vec<u32>>, alive: &Vec<usize>, e: usize, sh: &Vec<u32>) -> (w: Option<usize>)
    requires
        alive_ok(alive@, vs@.len() as nat),
    ensures
        w == witness_from(vs@.map_values(|v: Vec<u32>| v@), alive@, e, sh@, 0),
{
    let ghost vsv = vs@.map_values(|v: Vec<u32>| v@);
    let mut idx: usize = alive.len();
    let mut w: Option<usize> = None;
    // scan from the back so that the first witness wins
    while idx > 0
        invariant
            idx <= alive@.len(),
            alive_ok(alive@, vs@.len() as nat),
            vsv == vs@.map_values(|v: Vec<u32>| v@),
            w == witness_from(vsv, alive@, e, sh@, idx as int),
        decreases idx,
    {
        idx = idx - 1;
        let o = alive[idx];
        let mut ok = o != e;
        let mut k: usize = 0;
        while ok && k < sh.len()
            invariant
                k <= sh@.len(),
                idx < alive@.len(),
                o == alive@[idx as int],
                alive_ok(alive@, vs@.len() as nat),
                vsv == vs@.map_values(|v: Vec<u32>| v@),
                ok ==> o != e,
                ok ==> forall|q: int| 0 <= q < k ==> vsv[o as int].contains(#[trigger] sh@[q]),
                !ok ==> (o == e || !covers(vsv, o, sh@)),
            decreases sh@.len() - k,
        {
            let x = sh[k];
            let mut found = false;
            let vo = &vs[o];
            assert(vo@ == vsv[o as int]);
            let mut t: usize = 0;
            while t < vo.len()
                invariant
                    t <= vo@.len(),
                    !found ==> forall|u: int| 0 <= u < t ==> vo@[u] != x,
                    found ==> vo@.contains(x),
                decreases vo@.len() - t,
            {
                if vo[t] == x {
                    found = true;
                }
                t = t + 1;
            }
            if !found {
                proof {
                    assert(!vo@.contains(x));
                    assert(!vsv[o as int].contains(sh@[k as int]));
                }
                ok = false;
            }
            k = k + 1;
        }
        proof {
            if ok {
                assert(covers(vsv, o, sh@));
            }
            assert(witness_from(vsv, alive@, e, sh@, idx as int) == if alive@[idx as int] != e && covers(vsv, alive@[idx as int], sh@) {
                Some(alive@[idx as int])
            } else {
                witness_from(vsv, alive@, e, sh@, idx + 1)
            });
        }
        if ok {
            w = Some(o);
        }
    }
    w
}

/// `d` is the GYO decomposition of `q`: the atoms that ear removal (from all
/// atoms, in index order) cannot peel form the cyclic core, the peeled ones the
/// join tree; acyclic iff the core is empty, width 1 then, else the core size.
pub open spec fn decomposes(q: Query, d: Decomposition) -> bool {
    &&& exists|vs: Seq<Seq<u32>>| #[trigger] var_sets(q, vs) && (d.cyclic_core@, d.join_tree@) == gyo(
            vs,
            Seq::new(q.atoms@.len(), |i: int| i as usize),
            Seq::empty(),
        )
    &&& d.acyclic == (d.cyclic_core@.len() == 0)
    &&& d.width == if d.acyclic { 1 } else { d.cyclic_core@.len() }
}

/// Decompose `q` by GYO ear-removal. An atom is an ear when the variables it
/// shares with the rest are all contained in one other atom (its parent), or it
/// shares nothing. Peel ears until none remain; the residue is the cyclic core.
pub fn hypertree_decompose(q: &Query) -> (d: Decomposition)
    ensures
        decomposes(*q, d),
{
    let n = q.atoms.len();
    let mut vs: Vec<Vec<u32>> = Vec::new();
    let mut alive: Vec<usize> = Vec::new();
    let mut i: usize = 0;
    while i < n
        invariant
            i <= n,
            n == q.atoms@.len(),
            vs@.len() == i,
            alive@ == Seq::new(i as nat, |x: int| x as usize),
            forall|x: int| 0 <= x < i ==> (#[trigger] vs@[x])@.to_set() == q.atoms@[x].vars@.to_set(),
        decreases n - i,
    {
        vs.push(sorted_distinct(q.atoms[i].vars.as_slice()));
        alive.push(i);
        proof {
            assert(alive@ =~= Seq::new((i + 1) as nat, |x: int| x as usize));
        }
        i = i + 1;
    }
    let ghost vsv = vs@.map_values(|v: Vec<u32>| v@);
    assert(var_sets(*q, vsv));
    let ghost start = alive@;
    let mut tree: Vec<(usize, Option<usize>)> = Vec::new();
    loop
        invariant
            vs@.len() == n,
            vsv == vs@.map_values(|v: Vec<u32>| v@),
            alive_ok(alive@, n as nat),
            gyo(vsv, alive@, tree@) == gyo(vsv, start, Seq::empty()),
        ensures
            vs@.len() == n,
            vsv == vs@.map_values(|v: Vec<u32>| v@),
            gyo(vsv, alive@, tree@) == gyo(vsv, start, Seq::empty()),
            ear_from(vsv, alive@, 0) is None,
        decreases alive@.len(),
    {
        // find the first ear, scanning positions from the back
        let mut found: Option<(usize, usize, Option<usize>)> = None;
        let mut pi: usize = alive.len();
        while pi > 0
            invariant
                pi <= alive@.len(),
                vs@.len() == n,
                vsv == vs@.map_values(|v: Vec<u32>| v@),
                alive_ok(alive@, n as nat),
                match found {
                    None => ear_from(vsv, alive@, pi as int) is None,
                    Some((p, e, w)) => ear_from(vsv, alive@, pi as int) == Some((p as int, e, w)),
                },
            decreases pi,
        {
            pi = pi - 1;
            let e = alive[pi];
            // the variables of e shared with another alive atom
            let ve = &vs[e];
            assert(ve@ == vsv[e as int]);
            let mut sh: Vec<u32> = Vec::new();
            let mut k: usize = 0;
            while k < ve.len()
                invariant
                    k <= ve@.len(),
                    pi < alive@.len(),
                    e == alive@[pi as int],
                    ve@ == vsv[e as int],
                    vs@.len() == n,
                    vsv == vs@.map_values(|v: Vec<u32>| v@),
                    alive_ok(alive@, n as nat),
                    sh@ == ve@.take(k as int).filter(|v: u32| occurs_elsewhere(vsv, alive@, e, v)),
                decreases ve@.len() - k,
            {
                let v = ve[k];
                let mut elsewhere = false;
                let mut o: usize = 0;
                while o < alive.len()
                    invariant
                        o <= alive@.len(),
                        vs@.len() == n,
                        vsv == vs@.map_values(|v: Vec<u32>| v@),
                        alive_ok(alive@, n as nat),
                        elsewhere == exists|oo: int| 0 <= oo < o && alive@[oo] != e && (#[trigger] vsv[alive@[oo] as int]).contains(v),
                    decreases alive@.len() - o,
                {
                    let other = alive[o];
                    if other != e {
                        let vo = &vs[other];
                        assert(vo@ == vsv[other as int]);
                        let mut t: usize = 0;
                        let mut hit = false;
                        while t < vo.len()
                            invariant
                                t <= vo@.len(),
                                hit == vo@.take(t as int).contains(v),
                            decreases vo@.len() - t,
                        {
                            proof {
                                assert(vo@.take(t + 1) =~= vo@.take(t as int).push(vo@[t as int]));
                                lemma_push_to_set(vo@.take(t as int), vo@[t as int]);
                                assert(vo@.take(t + 1).to_set().contains(v) == vo@.take(t + 1).contains(v));
                                assert(vo@.take(t as int).to_set().contains(v) == vo@.take(t as int).contains(v));
                            }
                            if vo[t] == v {
                                hit = true;
                            }
                            t = t + 1;
                        }
                        assert(vo@.take(vo@.len() as int) =~= vo@);
                        if hit {
                            elsewhere = true;
                        }
                    }
                    o = o + 1;
                }
                proof {
                    assert(ve@.take(k + 1) =~= ve@.take(k as int).push(v));
                    lemma_filter_push(ve@.take(k as int), v, |v: u32| occurs_elsewhere(vsv, alive@, e, v));
                }
                if elsewhere {
                    sh.push(v);
                }
                k = k + 1;
            }
            assert(ve@.take(ve@.len() as int) =~= ve@);
            let w = find_witness(&vs, &alive, e, &sh);
            if sh.len() == 0 || w.is_some() {
                found = Some((pi, e, w));
            }
        }
        match found {
            Some((pos, e, w)) => {
                proof {
                    assert(ear_from(vsv, alive@, 0) == Some((pos as int, e, w)));
                    lemma_ear_pos(vsv, alive@, 0);
                }
                let ghost old_tree = tree@;
                tree.push((e, w));
                let ghost old_alive = alive@;
                alive.remove(pos);
                assert(gyo(vsv, old_alive, old_tree) == gyo(vsv, alive@, tree@));
                proof {
                    assert(alive@ == old_alive.remove(pos as int));
                    assert forall|a: int, b: int| 0 <= a < b < alive@.len() implies alive@[a] != alive@[b] by {
                        let a0 = if a < pos { a } else { a + 1 };
                        let b0 = if b < pos { b } else { b + 1 };
                        assert(alive@[a] == old_alive[a0]);
                        assert(alive@[b] == old_alive[b0]);
                    }
                    assert forall|a: int| 0 <= a < alive@.len() implies (#[trigger] alive@[a]) < n by {
                        let a0 = if a < pos { a } else { a + 1 };
                        assert(alive@[a] == old_alive[a0]);
                    }
                }
            },
            None => {
                break;
            },
        }
    }
    assert(gyo(vsv, alive@, tree@) == (alive@, tree@));
    assert(start == Seq::new(q.atoms@.len(), |i: int| i as usize));
    let acyclic = alive.len() == 0;
    let width = if acyclic { 1 } else { alive.len() };
    Decomposition { acyclic, width, cyclic_core: alive, join_tree: tree }
}

proof fn lemma_ear_pos(vs: Seq<Seq<u32>>, alive: Seq<usize>, idx: int)
    requires
        0 <= idx,
    ensures
        ear_from(vs, alive, idx) matches Some((p, e, w)) ==> idx <= p < alive.len() && alive[p] == e,
    decreases alive.len() - idx,
{
    if idx < alive.len() {
        lemma_ear_pos(vs, alive, idx + 1);
    }
}


/// Relation cardinalities keyed by relation name.
#[derive(Clone, Debug)]
pub struct RelCards {
    entries: Vec<(String, u64)>,
}

impl RelCards {
    /// The recorded cardinalities.
    pub closed spec fn view(&self) -> Map<Seq<char>, u64> {
        Map::new(
            |k: Seq<char>| exists|i: int| 0 <= i < self.entries@.len() && (#[trigger] self.entries@[i]).0@ == k,
            |k: Seq<char>| self.entries@[choose|i: int| 0 <= i < self.entries@.len() && (#[trigger] self.entries@[i]).0@ == k].1,
        )
    }

    pub closed spec fn wf(&self) -> bool {
        forall|i: int, j: int| 0 <= i < j < self.entries@.len() ==> (#[trigger] self.entries@[i]).0@ != (#[trigger] self.entries@[j]).0@
    }

    /// No cardinalities.
    pub fn new() -> (m: RelCards)
        ensures
            m.wf(),
            m.view() == Map::<Seq<char>, u64>::empty(),
    {
        let m = RelCards { entries: Vec::new() };
        assert(m.view() =~= Map::<Seq<char>, u64>::empty());
        m
    }

    /// Record `|rel| = card`, replacing an earlier value. Returns the earlier one.
    pub fn insert(&mut self, rel: String, card: u64) -> (prev: Option<u64>)
        requires
            old(self).wf(),
        ensures
            final(self).wf(),
            final(self).view() == old(self).view().insert(rel@, card),
            prev == (if old(self).view().dom().contains(rel@) { Some(old(self).view()[rel@]) } else { None }),
    {
        let mut i: usize = 0;
        while i < self.entries.len()
            invariant
                i <= self.entries@.len(),
                self.wf(),
                self == old(self),
                forall|q: int| 0 <= q < i ==> (#[trigger] self.entries@[q]).0@ != rel@,
            decreases self.entries@.len() - i,
        {
            if self.entries[i].0 == rel {
                let prev = self.entries[i].1;
                let ghost old_e = self.entries@;
                self.entries.set(i, (rel, card));
                proof {
                    assert(old(self).view().dom().contains(rel@));
                    let c = choose|q: int| 0 <= q < old_e.len() && (#[trigger] old_e[q]).0@ == rel@;
                    assert(c == i);
                    assert forall|a: int, b: int| 0 <= a < b < self.entries@.len() implies (#[trigger] self.entries@[a]).0@ != (#[trigger] self.entries@[b]).0@ by {
                        assert(a != i ==> self.entries@[a] == old_e[a]);
                        assert(b != i ==> self.entries@[b] == old_e[b]);
                    }
                    assert forall|k: Seq<char>| #![auto] self.view().dom().contains(k) == old(self).view().insert(rel@, card).dom().contains(k) by {
                        if self.view().dom().contains(k) {
                            let q = choose|q: int| 0 <= q < self.entries@.len() && (#[trigger] self.entries@[q]).0@ == k;
                            if q != i { assert(old_e[q].0@ == k); }
                        }
                        if old(self).view().dom().contains(k) {
                            let q = choose|q: int| 0 <= q < old_e.len() && (#[trigger] old_e[q]).0@ == k;
                            if q != i { assert(self.entries@[q].0@ == k); } else { assert(self.entries@[i as int].0@ == k); }
                        }
                    }
                    assert forall|k: Seq<char>| #![auto] self.view().dom().contains(k) implies self.view()[k] == old(self).view().insert(rel@, card)[k] by {
                        let q = choose|q: int| 0 <= q < self.entries@.len() && (#[trigger] self.entries@[q]).0@ == k;
                        if q != i {
                            let q2 = choose|q2: int| 0 <= q2 < old_e.len() && (#[trigger] old_e[q2]).0@ == k;
                            assert(q2 == q);
                        }
                    }
                    assert(self.view() =~= old(self).view().insert(rel@, card));
                }
                return Some(prev);
            }
            i = i + 1;
        }
        let ghost old_e = self.entries@;
        let ghost r = rel@;
        self.entries.push((rel, card));
        proof {
            assert(!old(self).view().dom().contains(r));
            assert forall|k: Seq<char>| #![auto] self.view().dom().contains(k) == old(self).view().insert(r, card).dom().contains(k) by {
                if self.view().dom().contains(k) {
                    let q = choose|q: int| 0 <= q < self.entries@.len() && (#[trigger] self.entries@[q]).0@ == k;
                    if q < old_e.len() { assert(old_e[q].0@ == k); }
                }
                if old(self).view().dom().contains(k) {
                    let q = choose|q: int| 0 <= q < old_e.len() && (#[trigger] old_e[q]).0@ == k;
                    assert(self.entries@[q].0@ == k);
                }
                if k == r { assert(self.entries@[old_e.len() as int].0@ == k); }
            }
            assert forall|k: Seq<char>| #![auto] self.view().dom().contains(k) implies self.view()[k] == old(self).view().insert(r, card)[k] by {
                let q = choose|q: int| 0 <= q < self.entries@.len() && (#[trigger] self.entries@[q]).0@ == k;
                if q < old_e.len() {
                    let q2 = choose|q2: int| 0 <= q2 < old_e.len() && (#[trigger] old_e[q2]).0@ == k;
                    assert(self.entries@[q2] == old_e[q2]);
                    assert(q2 == q);
                }
            }
            assert(self.view() =~= old(self).view().insert(r, card));
        }
        None
    }

    /// The recorded cardinality of `rel`, if any.
    pub fn get(&self, rel: &String) -> (r: Option<u64>)
        requires
            self.wf(),
        ensures
            r == (if self.view().dom().contains(rel@) { Some(self.view()[rel@]) } else { None }),
    {
        let mut i: usize = 0;
        while i < self.entries.len()
            invariant
                i <= self.entries@.len(),
                self.wf(),
                forall|q: int| 0 <= q < i ==> (#[trigger] self.entries@[q]).0@ != rel@,
            decreases self.entries@.len() - i,
        {
            if self.entries[i].0 == *rel {
                proof {
                    let c = choose|q: int| 0 <= q < self.entries@.len() && (#[trigger] self.entries@[q]).0@ == rel@;
                    assert(c == i);
                }
                return Some(self.entries[i].1);
            }
            i = i + 1;
        }
        None
    }
}


/// Statistics for cost estimation: relation cardinalities and per-variable
/// domain (distinct-value) sizes.
#[derive(Clone, Debug)]
pub struct Stats {
    pub card: RelCards,
    pub domain: HashMap<Var, u64>,
}

/// `x` saturated into `u128`.
pub open spec fn sat(x: int) -> u128 {
    if x >= u128::MAX { u128::MAX } else if x <= 0 { 0 } else { x as u128 }
}

/// Saturating product.
pub open spec fn sat_mul(a: u128, b: u128) -> u128 {
    sat(a * b)
}

/// Saturating power `b^e` (iterated saturating product; equal to `min(b^e, MAX)`).
pub open spec fn sat_pow(b: u128, e: nat) -> u128
    decreases e,
{
    if e == 0 { 1 } else { sat_mul(sat_pow(b, (e - 1) as nat), b) }
}

/// The cardinality used for `rel`: its recorded one, else 1000.
pub open spec fn card_spec(stats: Stats, rel: Seq<char>) -> u128 {
    if stats.card.view().dom().contains(rel) { stats.card.view()[rel] as u128 } else { 1000 }
}

/// The domain size used for `v`: its recorded one (at least 1), else 1.
pub open spec fn dom_spec(stats: Stats, v: u32) -> u128 {
    if stats.domain@.contains_key(v) {
        if stats.domain@[v] >= 1 { stats.domain@[v] as u128 } else { 1 }
    } else {
        1
    }
}

/// `∏ |R|` over the atoms, saturating.
pub open spec fn num_spec(atoms: Seq<Atom>, stats: Stats) -> u128
    decreases atoms.len(),
{
    if atoms.len() == 0 { 1 } else { sat_mul(num_spec(atoms.drop_last(), stats), card_spec(stats, atoms.last().rel@)) }
}

/// All variable occurrences of the atoms, in order.
pub open spec fn occurrences(atoms: Seq<Atom>) -> Seq<u32>
    decreases atoms.len(),
{
    if atoms.len() == 0 { Seq::empty() } else { occurrences(atoms.drop_last()) + atoms.last().vars@ }
}

/// The distinct elements of `s` in first-occurrence order.
pub open spec fn first_occ(s: Seq<u32>) -> Seq<u32>
    decreases s.len(),
{
    if s.len() == 0 {
        Seq::empty()
    } else {
        let p = first_occ(s.drop_last());
        if p.contains(s.last()) { p } else { p.push(s.last()) }
    }
}

/// How many times `v` occurs in `s`.
pub open spec fn count_occ(s: Seq<u32>, v: u32) -> nat
    decreases s.len(),
{
    if s.len() == 0 {
        0
    } else {
        count_occ(s.drop_last(), v) + if s.last() == v { 1nat } else { 0nat }
    }
}

/// `∏_v D(v)^(k_v − 1)` over the variables occurring at least twice, saturating
/// (variables taken in first-occurrence order; the product does not depend on it).
pub open spec fn den_over(vs: Seq<u32>, occ: Seq<u32>, stats: Stats) -> u128
    decreases vs.len(),
{
    if vs.len() == 0 {
        1
    } else {
        let d = den_over(vs.drop_last(), occ, stats);
        let k = count_occ(occ, vs.last());
        if k >= 2 { sat_mul(d, sat_pow(dom_spec(stats, vs.last()), (k - 1) as nat)) } else { d }
    }
}

/// Textbook independence estimate of the join size of `atoms`:
/// `max(1, ∏ |R| / max(1, ∏_v D(v)^(k_v − 1)))`.
pub open spec fn est_join_size_spec(atoms: Seq<Atom>, stats: Stats) -> u128 {
    let num = num_spec(atoms, stats);
    let den = den_over(first_occ(occurrences(atoms)), occurrences(atoms), stats);
    let d = if den >= 1 { den } else { 1u128 };
    let q = num / d;
    if q >= 1 { q } else { 1 }
}

fn sat_mul_exec(a: u128, b: u128) -> (r: u128)
    ensures
        r == sat_mul(a, b),
{
    match a.checked_mul(b) {
        Some(x) => x,
        None => u128::MAX,
    }
}

fn sat_pow_exec(b: u128, e: usize) -> (r: u128)
    ensures
        r == sat_pow(b, e as nat),
{
    let mut r: u128 = 1;
    let mut i: usize = 0;
    while i < e
        invariant
            i <= e,
            r == sat_pow(b, i as nat),
        decreases e - i,
    {
        r = sat_mul_exec(r, b);
        i = i + 1;
    }
    r
}

impl Stats {
    fn card_of(&self, rel: &String) -> (r: u128)
        requires
            self.card.wf(),
        ensures
            r == card_spec(*self, rel@),
    {
        match self.card.get(rel) {
            Some(c) => c as u128,
            None => 1000,
        }
    }

    fn domain_of(&self, v: Var) -> (r: u128)
        ensures
            r == dom_spec(*self, v),
    {
        broadcast use vstd::std_specs::hash::group_hash_axioms;
        match self.domain.get(&v) {
            Some(d) => if *d >= 1 { *d as u128 } else { 1 },
            None => 1,
        }
    }
}

proof fn lemma_count_push(s: Seq<u32>, x: u32, v: u32)
    ensures
        count_occ(s.push(x), v) == count_occ(s, v) + if x == v { 1nat } else { 0nat },
{
    assert(s.push(x).drop_last() =~= s);
}

proof fn lemma_first_occ_distinct(s: Seq<u32>)
    ensures
        forall|i: int, j: int| 0 <= i < j < first_occ(s).len() ==> first_occ(s)[i] != first_occ(s)[j],
    decreases s.len(),
{
    if s.len() > 0 {
        lemma_first_occ_distinct(s.drop_last());
        let p = first_occ(s.drop_last());
        if !p.contains(s.last()) {
            assert forall|i: int, j: int| 0 <= i < j < p.push(s.last()).len() implies p.push(s.last())[i] != p.push(s.last())[j] by {
                if j == p.len() {
                    assert(p[i] != s.last());
                }
            }
        }
    }
}

proof fn lemma_count_bound(s: Seq<u32>, v: u32)
    ensures
        count_occ(s, v) <= s.len(),
    decreases s.len(),
{
    if s.len() > 0 {
        lemma_count_bound(s.drop_last(), v);
        assert(s.drop_last().push(s.last()) =~= s);
        lemma_count_push(s.drop_last(), s.last(), v);
    }
}

/// Occurrence counts of the distinct elements of `occ`, in first-occurrence order.
fn occurrence_counts(occ: &Vec<u32>) -> (c: Vec<(u32, usize)>)
    ensures
        c@.map_values(|p: (u32, usize)| p.0) == first_occ(occ@),
        forall|j: int| 0 <= j < c@.len() ==> (#[trigger] c@[j]).1 == count_occ(occ@, c@[j].0),
{
    let mut c: Vec<(u32, usize)> = Vec::new();
    let mut i: usize = 0;
    while i < occ.len()
        invariant
            i <= occ@.len(),
            c@.map_values(|p: (u32, usize)| p.0) == first_occ(occ@.take(i as int)),
            forall|j: int| 0 <= j < c@.len() ==> (#[trigger] c@[j]).1 == count_occ(occ@.take(i as int), c@[j].0),
        decreases occ@.len() - i,
    {
        let x = occ[i];
        let ghost pre = occ@.take(i as int);
        let ghost post = occ@.take(i + 1);
        assert(post.drop_last() =~= pre);
        assert(post =~= pre.push(x));
        proof {
            assert forall|v: u32| count_occ(post, v) == count_occ(pre, v) + if x == v { 1nat } else { 0nat } by {
                lemma_count_push(pre, x, v);
            }
            lemma_count_bound(pre, x);
        }
        let mut j: usize = 0;
        let mut hit = false;
        while j < c.len() && !hit
            invariant
                j <= c@.len(),
                !hit ==> forall|q: int| 0 <= q < j ==> (#[trigger] c@[q]).0 != x,
                hit ==> j >= 1 && c@[j - 1].0 == x,
            decreases c@.len() - j,
        {
            if c[j].0 == x {
                hit = true;
            }
            j = j + 1;
        }
        let ghost old_c = c@;
        proof {
            lemma_first_occ_distinct(pre);
            assert forall|q: int| 0 <= q < old_c.len() implies old_c.map_values(|p: (u32, usize)| p.0)[q] == (#[trigger] old_c[q]).0 by {}
        }
        if hit {
            let k = j - 1;
            let (v, cnt) = c[k];
            assert(cnt == count_occ(pre, x));
            assert(cnt < usize::MAX);
            c.set(k, (v, cnt + 1));
            proof {
                assert(old_c.map_values(|p: (u32, usize)| p.0)[k as int] == x);
                assert(first_occ(pre).contains(x));
                assert(c@.map_values(|p: (u32, usize)| p.0) =~= old_c.map_values(|p: (u32, usize)| p.0));
                assert(first_occ(post) == first_occ(pre));
                assert forall|q: int| 0 <= q < c@.len() implies (#[trigger] c@[q]).1 == count_occ(post, c@[q].0) by {
                    if q != k {
                        assert(old_c[q].0 != x);
                        assert(c@[q] == old_c[q]);
                    }
                }
            }
        } else {
            c.push((x, 1));
            proof {
                assert forall|q: int| 0 <= q < first_occ(pre).len() implies first_occ(pre)[q] != x by {
                    assert(old_c.map_values(|p: (u32, usize)| p.0)[q] == old_c[q].0);
                }
                assert(!first_occ(pre).contains(x));
                assert(c@.map_values(|p: (u32, usize)| p.0) =~= old_c.map_values(|p: (u32, usize)| p.0).push(x));
                assert(count_occ(pre, x) == 0) by {
                    lemma_count_zero(pre, x);
                }
                assert(first_occ(post) == first_occ(pre).push(x));
                assert forall|q: int| 0 <= q < c@.len() implies (#[trigger] c@[q]).1 == count_occ(post, c@[q].0) by {
                    if q < old_c.len() {
                        assert(c@[q] == old_c[q]);
                        assert(old_c[q].0 != x);
                    }
                }
            }
        }
        i = i + 1;
    }
    assert(occ@.take(occ@.len() as int) =~= occ@);
    c
}

proof fn lemma_first_occ_contains(s: Seq<u32>, v: u32)
    ensures
        first_occ(s).contains(v) <==> s.contains(v),
    decreases s.len(),
{
    if s.len() > 0 {
        lemma_first_occ_contains(s.drop_last(), v);
        let p = first_occ(s.drop_last());
        if s.contains(v) && !s.drop_last().contains(v) {
            let k = choose|k: int| 0 <= k < s.len() && s[k] == v;
            if k < s.len() - 1 { assert(s.drop_last()[k] == v); }
            if !p.contains(s.last()) { assert(p.push(s.last())[p.len() as int] == v); }
        }
        if s.drop_last().contains(v) {
            let k = choose|k: int| 0 <= k < s.drop_last().len() && s.drop_last()[k] == v;
            assert(s[k] == v);
        }
        if first_occ(s).contains(v) && !p.contains(v) {
            assert(v == s.last());
            assert(s[s.len() - 1] == v);
        }
        if p.contains(v) && !p.contains(s.last()) {
            let k = choose|k: int| 0 <= k < p.len() && p[k] == v;
            assert(p.push(s.last())[k] == v);
        }
    }
}

proof fn lemma_count_zero(s: Seq<u32>, v: u32)
    requires
        !first_occ(s).contains(v),
    ensures
        count_occ(s, v) == 0,
    decreases s.len(),
{
    lemma_first_occ_contains(s, v);
    if s.len() > 0 {
        lemma_first_occ_contains(s.drop_last(), v);
        assert(!s.drop_last().contains(v)) by {
            if s.drop_last().contains(v) {
                let k = choose|k: int| 0 <= k < s.drop_last().len() && s.drop_last()[k] == v;
                assert(s[k] == v);
            }
        }
        assert(s.last() != v) by {
            assert(s[s.len() - 1] == s.last());
        }
        lemma_count_zero(s.drop_last(), v);
        assert(s.drop_last().push(s.last()) =~= s);
        lemma_count_push(s.drop_last(), s.last(), v);
    }
}


/// The atoms picked out by `idx`, in that order.
proof fn lemma_count_concat(a: Seq<u32>, b: Seq<u32>, u: u32)
    ensures
        count_occ(a + b, u) == count_occ(a, u) + count_occ(b, u),
    decreases b.len(),
{
    if b.len() == 0 {
        assert(a + b =~= a);
    } else {
        lemma_count_concat(a, b.drop_last(), u);
        assert(a + b =~= (a + b.drop_last()).push(b.last()));
        lemma_count_push(a + b.drop_last(), b.last(), u);
        assert(b =~= b.drop_last().push(b.last()));
        lemma_count_push(b.drop_last(), b.last(), u);
    }
}

proof fn lemma_count_distinct(s: Seq<u32>, u: u32)
    requires
        forall|i: int, j: int| 0 <= i < j < s.len() ==> s[i] != s[j],
    ensures
        count_occ(s, u) == if s.contains(u) { 1nat } else { 0nat },
    decreases s.len(),
{
    if s.len() > 0 {
        let t = s.drop_last();
        lemma_count_distinct(t, u);
        if t.contains(u) {
            let i = choose|i: int| 0 <= i < t.len() && t[i] == u;
            assert(s[i] == u);
            assert(s.last() != u);
        }
        if s.contains(u) && !t.contains(u) {
            let i = choose|i: int| 0 <= i < s.len() && s[i] == u;
            if i < t.len() {
                assert(t[i] == u);
            }
        }
        if !s.contains(u) && s.last() == u {
            assert(s[s.len() - 1] == u);
        }
        if t.contains(u) {
            let i = choose|i: int| 0 <= i < t.len() && t[i] == u;
            assert(s[i] == u);
        }
    }
}

proof fn lemma_den_one_shared(vs: Seq<u32>, occ: Seq<u32>, stats: Stats, v: u32)
    requires
        forall|i: int, j: int| 0 <= i < j < vs.len() ==> vs[i] != vs[j],
        count_occ(occ, v) == 2,
        forall|i: int| 0 <= i < vs.len() && vs[i] != v ==> count_occ(occ, #[trigger] vs[i]) < 2,
        dom_spec(stats, v) <= u64::MAX,
    ensures
        den_over(vs, occ, stats) == if vs.contains(v) { dom_spec(stats, v) } else { 1u128 },
    decreases vs.len(),
{
    if vs.len() > 0 {
        let t = vs.drop_last();
        lemma_den_one_shared(t, occ, stats, v);
        if vs.last() == v {
            assert(!t.contains(v)) by {
                if t.contains(v) {
                    let i = choose|i: int| 0 <= i < t.len() && t[i] == v;
                    assert(vs[i] == vs[vs.len() - 1]);
                }
            }
            assert(sat_pow(dom_spec(stats, v), 0) == 1);
            assert(sat_pow(dom_spec(stats, v), 1) == sat_mul(1, dom_spec(stats, v)));
            assert(sat_mul(1, dom_spec(stats, v)) == dom_spec(stats, v));
            assert(vs[vs.len() - 1] == v);
        } else {
            assert(count_occ(occ, vs[vs.len() - 1]) < 2);
            if vs.contains(v) {
                let i = choose|i: int| 0 <= i < vs.len() && vs[i] == v;
                assert(t[i] == v);
            }
            if t.contains(v) {
                let i = choose|i: int| 0 <= i < t.len() && t[i] == v;
                assert(vs[i] == v);
            }
        }
    }
}

/// The join-size estimate of two atoms that share exactly one variable `v`
/// (and repeat no variable within themselves) is `|R|·|S| / D(v)`, at
/// least 1: the shared variable divides the product of the cardinalities by
/// its domain once.
pub proof fn lemma_two_atom_estimate(r: Atom, s: Atom, v: u32, stats: Stats)
    requires
        forall|i: int, j: int| 0 <= i < j < r.vars@.len() ==> r.vars@[i] != r.vars@[j],
        forall|i: int, j: int| 0 <= i < j < s.vars@.len() ==> s.vars@[i] != s.vars@[j],
        r.vars@.contains(v),
        s.vars@.contains(v),
        forall|u: u32| r.vars@.contains(u) && s.vars@.contains(u) ==> u == v,
    ensures
        ({
            let q = sat_mul(card_spec(stats, r.rel@), card_spec(stats, s.rel@)) / dom_spec(stats, v);
            est_join_size_spec(seq![r, s], stats) == if q >= 1 { q } else { 1u128 }
        }),
{
    let atoms = seq![r, s];
    assert(atoms.drop_last() =~= seq![r]);
    assert(seq![r].drop_last() =~= Seq::<Atom>::empty());
    assert(seq![r].last() == r);
    assert(atoms.last() == s);
    assert(occurrences(Seq::<Atom>::empty()) == Seq::<u32>::empty());
    assert(num_spec(Seq::<Atom>::empty(), stats) == 1);
    assert(occurrences(seq![r]) =~= r.vars@);
    let occ = occurrences(atoms);
    assert(occ =~= r.vars@ + s.vars@);
    assert(num_spec(seq![r], stats) == sat_mul(1, card_spec(stats, r.rel@)));
    assert(card_spec(stats, r.rel@) <= u64::MAX);
    assert(num_spec(atoms, stats) == sat_mul(card_spec(stats, r.rel@), card_spec(stats, s.rel@)));
    lemma_count_concat(r.vars@, s.vars@, v);
    lemma_count_distinct(r.vars@, v);
    lemma_count_distinct(s.vars@, v);
    let vs = first_occ(occ);
    lemma_first_occ_distinct(occ);
    lemma_first_occ_contains(occ, v);
    assert(occ.contains(v)) by {
        let i = choose|i: int| 0 <= i < r.vars@.len() && r.vars@[i] == v;
        assert(occ[i] == v);
    }
    assert forall|i: int| 0 <= i < vs.len() && vs[i] != v implies count_occ(occ, #[trigger] vs[i]) < 2 by {
        let u = vs[i];
        lemma_count_concat(r.vars@, s.vars@, u);
        lemma_count_distinct(r.vars@, u);
        lemma_count_distinct(s.vars@, u);
    }
    assert(dom_spec(stats, v) <= u64::MAX);
    lemma_den_one_shared(vs, occ, stats, v);
}

pub open spec fn sel(atoms: Seq<Atom>, idx: Seq<usize>) -> Seq<Atom> {
    idx.map_values(|k: usize| atoms[k as int])
}

/// Estimated join size of the atoms `atoms[idx[0]], atoms[idx[1]], …`.
fn est_join_size(atoms: &Vec<Atom>, idx: &Vec<usize>, stats: &Stats) -> (r: u128)
    requires
        stats.card.wf(),
        forall|k: int| 0 <= k < idx@.len() ==> idx@[k] < atoms@.len(),
    ensures
        r == est_join_size_spec(sel(atoms@, idx@), *stats),
{
    let ghost all = sel(atoms@, idx@);
    let mut num: u128 = 1;
    let mut occ: Vec<u32> = Vec::new();
    let mut i: usize = 0;
    while i < idx.len()
        invariant
            i <= idx@.len(),
            stats.card.wf(),
            forall|k: int| 0 <= k < idx@.len() ==> idx@[k] < atoms@.len(),
            all == sel(atoms@, idx@),
            num == num_spec(all.take(i as int), *stats),
            occ@ == occurrences(all.take(i as int)),
        decreases idx@.len() - i,
    {
        let a = &atoms[idx[i]];
        assert(*a == all[i as int]);
        num = sat_mul_exec(num, stats.card_of(&a.rel));
        let ghost occ0 = occ@;
        let mut j: usize = 0;
        while j < a.vars.len()
            invariant
                j <= a.vars@.len(),
                occ@ == occ0 + a.vars@.take(j as int),
            decreases a.vars@.len() - j,
        {
            occ.push(a.vars[j]);
            proof {
                assert(a.vars@.take(j + 1) =~= a.vars@.take(j as int).push(a.vars@[j as int]));
            }
            j = j + 1;
        }
        proof {
            assert(a.vars@.take(a.vars@.len() as int) =~= a.vars@);
            assert(all.take(i + 1).drop_last() =~= all.take(i as int));
            assert(all.take(i + 1).last() == *a);
        }
        i = i + 1;
    }
    assert(all.take(idx@.len() as int) =~= all);
    let counts = occurrence_counts(&occ);
    let ghost vs = first_occ(occ@);
    let mut den: u128 = 1;
    let mut j: usize = 0;
    while j < counts.len()
        invariant
            j <= counts@.len(),
            counts@.map_values(|p: (u32, usize)| p.0) == vs,
            forall|q: int| 0 <= q < counts@.len() ==> (#[trigger] counts@[q]).1 == count_occ(occ@, counts@[q].0),
            den == den_over(vs.take(j as int), occ@, *stats),
        decreases counts@.len() - j,
    {
        let (v, k) = counts[j];
        assert(vs[j as int] == v);
        if k >= 2 {
            den = sat_mul_exec(den, sat_pow_exec(stats.domain_of(v), k - 1));
        }
        proof {
            assert(vs.take(j + 1).drop_last() =~= vs.take(j as int));
        }
        j = j + 1;
    }
    assert(vs.take(counts@.len() as int) =~= vs);
    let d = if den >= 1 { den } else { 1 };
    let qt = num / d;
    if qt >= 1 { qt } else { 1 }
}

/// Every variable of `a` lies in `prefix`.
pub open spec fn is_closed(a: Atom, prefix: Seq<u32>) -> bool {
    forall|k: int| 0 <= k < a.vars@.len() ==> prefix.contains(#[trigger] a.vars@[k])
}

/// The atoms all of whose variables lie in `prefix`, in body order.
pub open spec fn closed_atoms(atoms: Seq<Atom>, prefix: Seq<u32>) -> Seq<Atom>
    decreases atoms.len(),
{
    if atoms.len() == 0 {
        Seq::empty()
    } else {
        let c = closed_atoms(atoms.drop_last(), prefix);
        if is_closed(atoms.last(), prefix) { c.push(atoms.last()) } else { c }
    }
}

/// Some atom of `atoms` mentions `v`.
pub open spec fn covered(atoms: Seq<Atom>, v: u32) -> bool {
    exists|i: int| 0 <= i < atoms.len() && (#[trigger] atoms[i]).vars@.contains(v)
}

/// `acc` times the domain of every variable of `vs` that no atom of `closed`
/// covers (saturating, in the order of `vs`).
pub open spec fn mul_free(acc: u128, vs: Seq<u32>, closed: Seq<Atom>, stats: Stats) -> u128
    decreases vs.len(),
{
    if vs.len() == 0 {
        acc
    } else {
        let a = mul_free(acc, vs.drop_last(), closed, stats);
        if covered(closed, vs.last()) { a } else { sat_mul(a, dom_spec(stats, vs.last())) }
    }
}

/// Estimated number of distinct bindings of the (ascending) variable set
/// `prefix`: the join of the atoms it closes, times the domain of each of its
/// variables that no closed atom covers.
pub open spec fn est_prefix_spec(prefix: Seq<u32>, atoms: Seq<Atom>, stats: Stats) -> u128 {
    let closed = closed_atoms(atoms, prefix);
    mul_free(est_join_size_spec(closed, stats), prefix, closed, stats)
}

fn contains_u32(s: &Vec<u32>, x: u32) -> (r: bool)
    ensures
        r == s@.contains(x),
{
    let mut i: usize = 0;
    while i < s.len()
        invariant
            i <= s@.len(),
            forall|q: int| 0 <= q < i ==> s@[q] != x,
        decreases s@.len() - i,
    {
        if s[i] == x {
            return true;
        }
        i = i + 1;
    }
    false
}

fn est_prefix(prefix: &Vec<u32>, q: &Query, stats: &Stats) -> (r: u128)
    requires
        stats.card.wf(),
    ensures
        r == est_prefix_spec(prefix@, q.atoms@, *stats),
{
    let atoms = &q.atoms;
    let mut idx: Vec<usize> = Vec::new();
    let mut i: usize = 0;
    while i < atoms.len()
        invariant
            i <= atoms@.len(),
            forall|k: int| 0 <= k < idx@.len() ==> idx@[k] < i,
            sel(atoms@, idx@) == closed_atoms(atoms@.take(i as int), prefix@),
        decreases atoms@.len() - i,
    {
        let a = &atoms[i];
        let mut all_in = true;
        let mut j: usize = 0;
        while j < a.vars.len()
            invariant
                j <= a.vars@.len(),
                all_in == (forall|k: int| 0 <= k < j ==> prefix@.contains(#[trigger] a.vars@[k])),
            decreases a.vars@.len() - j,
        {
            let inp = contains_u32(prefix, a.vars[j]);
            all_in = all_in && inp;
            j = j + 1;
        }
        let ghost old_idx = idx@;
        if all_in {
            idx.push(i);
        }
        proof {
            assert(atoms@.take(i + 1).drop_last() =~= atoms@.take(i as int));
            assert(atoms@.take(i + 1).last() == atoms@[i as int]);
            if all_in {
                assert(sel(atoms@, idx@) =~= sel(atoms@, old_idx).push(atoms@[i as int]));
            }
        }
        i = i + 1;
    }
    assert(atoms@.take(atoms@.len() as int) =~= atoms@);
    let ghost closed = sel(atoms@, idx@);
    let mut est = est_join_size(atoms, &idx, stats);
    let mut p: usize = 0;
    while p < prefix.len()
        invariant
            p <= prefix@.len(),
            forall|k: int| 0 <= k < idx@.len() ==> idx@[k] < atoms@.len(),
            closed == sel(atoms@, idx@),
            est == mul_free(est_join_size_spec(closed, *stats), prefix@.take(p as int), closed, *stats),
        decreases prefix@.len() - p,
    {
        let v = prefix[p];
        let mut cov = false;
        let mut k: usize = 0;
        while k < idx.len() && !cov
            invariant
                k <= idx@.len(),
                forall|m: int| 0 <= m < idx@.len() ==> idx@[m] < atoms@.len(),
                closed == sel(atoms@, idx@),
                cov == (exists|m: int| 0 <= m < k && (#[trigger] closed[m]).vars@.contains(v)),
            decreases idx@.len() - k,
        {
            cov = contains_u32(&atoms[idx[k]].vars, v);
            assert(closed[k as int] == atoms@[idx@[k as int] as int]);
            k = k + 1;
        }
        proof {
            if covered(closed, v) && !cov {
                let m = choose|m: int| 0 <= m < closed.len() && (#[trigger] closed[m]).vars@.contains(v);
                assert(m < k);
            }
            assert(prefix@.take(p + 1).drop_last() =~= prefix@.take(p as int));
            assert(prefix@.take(p + 1).last() == v);
        }
        if !cov {
            est = sat_mul_exec(est, stats.domain_of(v));
        }
        p = p + 1;
    }
    assert(prefix@.take(prefix@.len() as int) =~= prefix@);
    est
}


/// Two strictly increasing sequences with the same elements are equal.
pub(crate) proof fn lemma_increasing_unique(a: Seq<u32>, b: Seq<u32>)
    requires
        increasing(a),
        increasing(b),
        a.to_set() == b.to_set(),
    ensures
        a == b,
    decreases a.len(),
{
    if a.len() == 0 {
        if b.len() > 0 {
            assert(b.to_set().contains(b[0]));
        }
        assert(a =~= b);
    } else {
        assert(a.to_set().contains(a[0]));
        assert(b.len() > 0);
        assert(b.to_set().contains(b[0]));
        let k = choose|k: int| 0 <= k < b.len() && b[k] == a[0];
        let m = choose|m: int| 0 <= m < a.len() && a[m] == b[0];
        assert(a[0] <= a[m]);
        assert(b[0] <= b[k]);
        assert(a[0] == b[0]);
        let a1 = a.drop_first();
        let b1 = b.drop_first();
        assert forall|x: u32| a1.to_set().contains(x) <==> b1.to_set().contains(x) by {
            if a1.contains(x) {
                let i = choose|i: int| 0 <= i < a1.len() && a1[i] == x;
                assert(a[i + 1] == x);
                assert(b.to_set().contains(x));
                let j = choose|j: int| 0 <= j < b.len() && b[j] == x;
                assert(j != 0);
                assert(b1[j - 1] == x);
            }
            if b1.contains(x) {
                let i = choose|i: int| 0 <= i < b1.len() && b1[i] == x;
                assert(b[i + 1] == x);
                assert(a.to_set().contains(x));
                let j = choose|j: int| 0 <= j < a.len() && a[j] == x;
                assert(j != 0);
                assert(a1[j - 1] == x);
            }
        }
        assert(a1.to_set() =~= b1.to_set());
        lemma_increasing_unique(a1, b1);
        assert(a =~= seq![a[0]] + a1);
        assert(b =~= seq![b[0]] + b1);
    }
}

/// The variables of `order`, ascending and without repeats.
pub open spec fn prefix_of(order: Seq<u32>) -> Seq<u32> {
    choose|s: Seq<u32>| increasing(s) && s.to_set() == order.to_set()
}

/// Saturating sum.
pub open spec fn sat_add(a: u128, b: u128) -> u128 {
    sat(a + b)
}

/// Cost of a variable order: the saturating sum, over its prefixes, of the
/// estimated number of bindings of the prefix's variables.
pub open spec fn order_cost_spec(order: Seq<u32>, atoms: Seq<Atom>, stats: Stats) -> u128
    decreases order.len(),
{
    if order.len() == 0 {
        0
    } else {
        sat_add(order_cost_spec(order.drop_last(), atoms, stats), est_prefix_spec(prefix_of(order), atoms, stats))
    }
}

/// The cost of binding the variables in `order`, as `order_cost_spec` defines it.
pub fn order_cost(order: &Vec<u32>, q: &Query, stats: &Stats) -> (r: u128)
    requires
        stats.card.wf(),
    ensures
        r == order_cost_spec(order@, q.atoms@, *stats),
{
    let mut prefix: Vec<u32> = Vec::new();
    let mut cost: u128 = 0;
    let mut i: usize = 0;
    assert(prefix@.to_set() =~= order@.take(0).to_set());
    while i < order.len()
        invariant
            i <= order@.len(),
            stats.card.wf(),
            increasing(prefix@),
            prefix@.to_set() == order@.take(i as int).to_set(),
            cost == order_cost_spec(order@.take(i as int), q.atoms@, *stats),
        decreases order@.len() - i,
    {
        let v = order[i];
        insert_sorted(&mut prefix, v);
        let ghost t = order@.take(i + 1);
        proof {
            assert(t =~= order@.take(i as int).push(v));
            lemma_push_to_set(order@.take(i as int), v);
            assert(t.drop_last() =~= order@.take(i as int));
            let w = prefix_of(t);
            assert(increasing(prefix@) && prefix@.to_set() == t.to_set());
            lemma_increasing_unique(w, prefix@);
        }
        let e = est_prefix(&prefix, q, stats);
        cost = match cost.checked_add(e) {
            Some(c) => c,
            None => u128::MAX,
        };
        i = i + 1;
    }
    assert(order@.take(order@.len() as int) =~= order@);
    cost
}


/// `p` is a rearrangement of `items`.
pub open spec fn is_perm(p: Seq<u32>, items: Seq<u32>) -> bool {
    p.to_multiset() == items.to_multiset()
}

/// The contents of each vector.
pub open spec fn views(vs: Seq<Vec<u32>>) -> Seq<Seq<u32>> {
    vs.map_values(|v: Vec<u32>| v@)
}

proof fn lemma_views_push(vs: Seq<Vec<u32>>, v: Vec<u32>, p: Seq<u32>)
    requires
        views(vs).contains(p),
    ensures
        views(vs.push(v)).contains(p),
        views(vs.push(v)).contains(v@),
{
    assert(views(vs.push(v)) =~= views(vs).push(v@));
    let k = choose|k: int| 0 <= k < views(vs).len() && views(vs)[k] == p;
    assert(views(vs.push(v))[k] == p);
    assert(views(vs.push(v))[vs.len() as int] == v@);
}

/// `a` comes before `b` in lexicographic order: they agree up to a position
/// where `a` holds the smaller variable.
pub open spec fn lex_less(a: Seq<u32>, b: Seq<u32>) -> bool {
    exists|i: int| #![trigger a[i], b[i]] 0 <= i < a.len() && i < b.len() && a[i] < b[i]
        && forall|j: int| 0 <= j < i ==> a[j] == b[j]
}

/// Lexicographic order is transitive.
pub proof fn lemma_lex_less_trans(a: Seq<u32>, b: Seq<u32>, c: Seq<u32>)
    requires
        lex_less(a, b),
        lex_less(b, c),
    ensures
        lex_less(a, c),
{
    let i1 = choose|i: int| #![trigger a[i], b[i]] 0 <= i < a.len() && i < b.len() && a[i] < b[i]
        && forall|j: int| 0 <= j < i ==> a[j] == b[j];
    let i2 = choose|i: int| #![trigger b[i], c[i]] 0 <= i < b.len() && i < c.len() && b[i] < c[i]
        && forall|j: int| 0 <= j < i ==> b[j] == c[j];
    let m = if i1 < i2 { i1 } else { i2 };
    assert(forall|j: int| 0 <= j < m ==> a[j] == b[j] && b[j] == c[j]);
    if i1 < i2 {
        assert(b[i1] == c[i1]);
    } else if i2 < i1 {
        assert(a[i2] == b[i2]);
    }
    assert(a[m] < c[m]);
    assert(m < a.len() && m < c.len());
}

/// Lexicographic comparison of two variable orders.
fn lex_less_exec(a: &Vec<u32>, b: &Vec<u32>) -> (r: bool)
    ensures
        r == lex_less(a@, b@),
{
    let mut i: usize = 0;
    while i < a.len() && i < b.len()
        invariant
            i <= a@.len(),
            i <= b@.len(),
            forall|j: int| 0 <= j < i ==> a@[j] == b@[j],
        decreases a@.len() - i,
    {
        if a[i] < b[i] {
            assert(a@[i as int] < b@[i as int]);
            return true;
        }
        if a[i] > b[i] {
            proof {
                assert forall|k: int| #![trigger a@[k], b@[k]] 0 <= k < a@.len() && k < b@.len() && a@[k] < b@[k]
                    implies !(forall|j: int| 0 <= j < k ==> a@[j] == b@[j]) by {
                    if k > i {
                        assert(!(a@[i as int] == b@[i as int]));
                    }
                }
            }
            return false;
        }
        i = i + 1;
    }
    proof {
        assert forall|k: int| #![trigger a@[k], b@[k]] 0 <= k < a@.len() && k < b@.len() && a@[k] < b@[k]
            implies !(forall|j: int| 0 <= j < k ==> a@[j] == b@[j]) by {
        }
    }
    false
}

/// Every ordering of `items`.
fn permutations(items: &Vec<u32>) -> (out: Vec<Vec<u32>>)
    ensures
        forall|k: int| 0 <= k < out@.len() ==> is_perm(#[trigger] out@[k]@, items@),
        forall|p: Seq<u32>| is_perm(p, items@) ==> views(out@).contains(p),
    decreases items@.len(),
{
    broadcast use vstd::seq_lib::group_to_multiset_ensures;
    broadcast use vstd::multiset::group_multiset_axioms;
    if items.len() <= 1 {
        let mut out: Vec<Vec<u32>> = Vec::new();
        let c = vstd::slice::slice_to_vec(items.as_slice());
        out.push(c);
        proof {
            assert(views(out@)[0] == items@);
            assert forall|p: Seq<u32>| is_perm(p, items@) implies views(out@).contains(p) by {
                vstd::seq_lib::to_multiset_len(p);
                vstd::seq_lib::to_multiset_len(items@);
                assert(p.len() == items@.len());
                if p.len() == 1 {
                    assert(p.to_multiset().count(p[0]) > 0);
                    assert(items@.contains(p[0]));
                    assert(p =~= items@);
                } else {
                    assert(p =~= items@);
                }
            }
        }
        return out;
    }
    let mut out: Vec<Vec<u32>> = Vec::new();
    let mut i: usize = 0;
    while i < items.len()
        invariant
            i <= items@.len(),
            forall|k: int| 0 <= k < out@.len() ==> is_perm(#[trigger] out@[k]@, items@),
            forall|j: int, p: Seq<u32>| #![trigger is_perm(p, items@.remove(j))]
                0 <= j < i && is_perm(p, items@.remove(j)) ==> views(out@).contains(seq![items@[j]] + p),
        decreases items@.len() - i,
    {
        let mut rest = vstd::slice::slice_to_vec(items.as_slice());
        let x = rest.remove(i);
        assert(rest@ == items@.remove(i as int));
        assert(x == items@[i as int]);
        let sub = permutations(&rest);
        let mut t: usize = 0;
        while t < sub.len()
            invariant
                t <= sub@.len(),
                i < items@.len(),
                x == items@[i as int],
                rest@ == items@.remove(i as int),
                forall|k: int| 0 <= k < sub@.len() ==> is_perm(#[trigger] sub@[k]@, rest@),
                forall|k: int| 0 <= k < out@.len() ==> is_perm(#[trigger] out@[k]@, items@),
                forall|j: int, p: Seq<u32>| #![trigger is_perm(p, items@.remove(j))]
                    0 <= j < i && is_perm(p, items@.remove(j)) ==> views(out@).contains(seq![items@[j]] + p),
                forall|t2: int| 0 <= t2 < t ==> views(out@).contains(seq![x] + (#[trigger] sub@[t2])@),
            decreases sub@.len() - t,
        {
            let mut p = vstd::slice::slice_to_vec(sub[t].as_slice());
            p.insert(0, x);
            let ghost old_out = out@;
            proof {
                let q = sub@[t as int]@;
                assert(p@ =~= seq![x] + q);
                assert(q.insert(0, x) =~= p@);
                vstd::seq_lib::to_multiset_insert(q, 0, x);
                assert(p@.to_multiset() == q.to_multiset().insert(x));
                assert(items@.to_multiset().count(x) > 0) by {
                    assert(items@[i as int] == x);
                    vstd::seq_lib::to_multiset_contains(items@, x);
                }
                vstd::seq_lib::to_multiset_remove(items@, i as int);
                assert(rest@.to_multiset() == items@.to_multiset().remove(x));
                assert(p@.to_multiset() =~= items@.to_multiset());
            }
            out.push(p);
            proof {
                assert forall|k: int| 0 <= k < out@.len() implies is_perm(#[trigger] out@[k]@, items@) by {
                    if k < old_out.len() { assert(out@[k] == old_out[k]); }
                }
                assert forall|j: int, pp: Seq<u32>| #![trigger is_perm(pp, items@.remove(j))]
                    0 <= j < i && is_perm(pp, items@.remove(j)) implies views(out@).contains(seq![items@[j]] + pp) by {
                    lemma_views_push(old_out, p, seq![items@[j]] + pp);
                }
                assert forall|t2: int| 0 <= t2 <= t implies views(out@).contains(seq![x] + (#[trigger] sub@[t2])@) by {
                    if t2 < t {
                        lemma_views_push(old_out, p, seq![x] + sub@[t2]@);
                    } else {
                        assert(views(out@)[old_out.len() as int] == seq![x] + sub@[t2]@);
                    }
                }
            }
            t = t + 1;
        }
        proof {
            assert forall|j: int, pp: Seq<u32>| #![trigger is_perm(pp, items@.remove(j))]
                0 <= j <= i && is_perm(pp, items@.remove(j)) implies views(out@).contains(seq![items@[j]] + pp) by {
                if j == i {
                    let k = choose|k: int| 0 <= k < views(sub@).len() && views(sub@)[k] == pp;
                    assert(sub@[k]@ == pp);
                }
            }
        }
        i = i + 1;
    }
    proof {
        assert forall|p: Seq<u32>| is_perm(p, items@) implies views(out@).contains(p) by {
            vstd::seq_lib::to_multiset_len(p);
            vstd::seq_lib::to_multiset_len(items@);
            assert(p.len() == items@.len());
            assert(p.to_multiset().count(p[0]) > 0);
            assert(items@.contains(p[0]));
            let j = choose|j: int| 0 <= j < items@.len() && items@[j] == p[0];
            assert(p.remove(0) =~= p.drop_first());
            assert(p.drop_first().to_multiset() == p.to_multiset().remove(p[0]));
            assert(is_perm(p.drop_first(), items@.remove(j)));
            assert(seq![items@[j]] + p.drop_first() =~= p);
        }
    }
    out
}


/// A WCOJ variable order for the body `atoms`: each of its variables once.
pub open spec fn is_var_order(order: Seq<u32>, atoms: Seq<Atom>) -> bool {
    order.no_duplicates() && order.to_set() == all_vars(atoms)
}

/// Each step of `order` appends an unused variable of least order cost, the
/// smallest one among equals.
pub open spec fn greedy_order(order: Seq<u32>, atoms: Seq<Atom>, stats: Stats) -> bool {
    forall|i: int, w: u32|
        #![trigger order_cost_spec(order.take(i).push(w), atoms, stats)]
        0 <= i < order.len() && all_vars(atoms).contains(w) && !order.take(i).contains(w) ==> {
            let c = order_cost_spec(order.take(i + 1), atoms, stats);
            let cw = order_cost_spec(order.take(i).push(w), atoms, stats);
            c < cw || (c == cw && order[i] <= w)
        }
}

/// Orders over the same variables, without repeats, are rearrangements of each other.
proof fn lemma_var_order_perm(p: Seq<u32>, vars: Seq<u32>)
    requires
        vars.no_duplicates(),
    ensures
        (p.no_duplicates() && p.to_set() == vars.to_set()) <==> is_perm(p, vars),
{
    broadcast use vstd::seq_lib::group_to_multiset_ensures;
    broadcast use vstd::multiset::group_multiset_axioms;
    vars.lemma_multiset_has_no_duplicates();
    if p.no_duplicates() && p.to_set() == vars.to_set() {
        p.lemma_multiset_has_no_duplicates();
        assert forall|x: u32| p.to_multiset().count(x) == vars.to_multiset().count(x) by {
            assert(p.contains(x) <==> p.to_set().contains(x));
            assert(vars.contains(x) <==> vars.to_set().contains(x));
        }
        assert(p.to_multiset() =~= vars.to_multiset());
    }
    if is_perm(p, vars) {
        assert forall|x: u32| p.to_multiset().contains(x) implies p.to_multiset().count(x) == 1 by {}
        p.lemma_multiset_has_no_duplicates_conv();
        assert forall|x: u32| p.to_set().contains(x) <==> vars.to_set().contains(x) by {
            assert(p.contains(x) <==> p.to_multiset().count(x) > 0);
            assert(vars.contains(x) <==> vars.to_multiset().count(x) > 0);
        }
        assert(p.to_set() =~= vars.to_set());
    }
}

pub(crate) proof fn lemma_increasing_no_dup(s: Seq<u32>)
    requires
        increasing(s),
    ensures
        s.no_duplicates(),
{
    assert forall|i: int, j: int| 0 <= i < s.len() && 0 <= j < s.len() && i != j implies s[i] != s[j] by {
        if i < j { assert(s[i] < s[j]); } else { assert(s[j] < s[i]); }
    }
}

proof fn lemma_greedy_push(order: Seq<u32>, v: u32, atoms: Seq<Atom>, stats: Stats)
    requires
        greedy_order(order, atoms, stats),
        forall|w: u32| #![trigger order_cost_spec(order.push(w), atoms, stats)]
            all_vars(atoms).contains(w) && !order.contains(w) ==> {
                let c = order_cost_spec(order.push(v), atoms, stats);
                let cw = order_cost_spec(order.push(w), atoms, stats);
                c < cw || (c == cw && v <= w)
            },
    ensures
        greedy_order(order.push(v), atoms, stats),
{
    let o2 = order.push(v);
    assert forall|i: int, w: u32|
        #![trigger order_cost_spec(o2.take(i).push(w), atoms, stats)]
        0 <= i < o2.len() && all_vars(atoms).contains(w) && !o2.take(i).contains(w) implies {
            let c = order_cost_spec(o2.take(i + 1), atoms, stats);
            let cw = order_cost_spec(o2.take(i).push(w), atoms, stats);
            c < cw || (c == cw && o2[i] <= w)
        } by {
        if i < order.len() {
            assert(o2.take(i) =~= order.take(i));
            assert(o2.take(i + 1) =~= order.take(i + 1));
            assert(order_cost_spec(order.take(i).push(w), atoms, stats) == order_cost_spec(o2.take(i).push(w), atoms, stats));
        } else {
            assert(o2.take(i) =~= order);
            assert(o2.take(i + 1) =~= order.push(v));
            assert(order_cost_spec(order.push(w), atoms, stats) == order_cost_spec(o2.take(i).push(w), atoms, stats));
        }
    }
}

/// Choose the WCOJ variable order of least [`order_cost_spec`]: over every
/// order when the body has at most eight variables, else by greedy extension.
pub fn cost_based_order(q: &Query, stats: &Stats) -> (r: (Vec<Var>, u128))
    requires
        stats.card.wf(),
    ensures
        is_var_order(r.0@, q.atoms@),
        r.1 == order_cost_spec(r.0@, q.atoms@, *stats),
        all_vars(q.atoms@).len() <= 8 ==> forall|p: Seq<u32>|
            is_var_order(p, q.atoms@) ==> r.1 <= #[trigger] order_cost_spec(p, q.atoms@, *stats),
        all_vars(q.atoms@).len() <= 8 ==> forall|p: Seq<u32>|
            is_var_order(p, q.atoms@) && #[trigger] order_cost_spec(p, q.atoms@, *stats) == r.1 ==> !lex_less(p, r.0@),
        all_vars(q.atoms@).len() > 8 ==> greedy_order(r.0@, q.atoms@, *stats),
{
    let vars = q.vars();
    proof {
        lemma_increasing_no_dup(vars@);
        vars@.unique_seq_to_set();
    }
    if vars.len() <= 8 {
        let perms = permutations(&vars);
        proof {
            lemma_var_order_perm(vars@, vars@);
        }
        assert(views(perms@).contains(vars@));
        let mut best: usize = 0;
        let mut best_c: u128 = order_cost(&perms[0], q, stats);
        let mut k: usize = 1;
        while k < perms.len()
            invariant
                1 <= k <= perms@.len(),
                best < perms@.len(),
                stats.card.wf(),
                best_c == order_cost_spec(perms@[best as int]@, q.atoms@, *stats),
                forall|k2: int| 0 <= k2 < k ==> best_c <= order_cost_spec((#[trigger] perms@[k2])@, q.atoms@, *stats),
                forall|k2: int| 0 <= k2 < k && order_cost_spec((#[trigger] perms@[k2])@, q.atoms@, *stats) == best_c
                    ==> !lex_less(perms@[k2]@, perms@[best as int]@),
            decreases perms@.len() - k,
        {
            let c = order_cost(&perms[k], q, stats);
            if c < best_c || (c == best_c && lex_less_exec(&perms[k], &perms[best])) {
                proof {
                    if c == best_c {
                        assert forall|k2: int| 0 <= k2 < k && order_cost_spec((#[trigger] perms@[k2])@, q.atoms@, *stats) == c
                            implies !lex_less(perms@[k2]@, perms@[k as int]@) by {
                            if lex_less(perms@[k2]@, perms@[k as int]@) {
                                lemma_lex_less_trans(perms@[k2]@, perms@[k as int]@, perms@[best as int]@);
                            }
                        }
                    }
                }
                best = k;
                best_c = c;
            }
            k = k + 1;
        }
        let order = vstd::slice::slice_to_vec(perms[best].as_slice());
        proof {
            assert(is_perm(perms@[best as int]@, vars@));
            lemma_var_order_perm(order@, vars@);
            assert forall|p: Seq<u32>| is_var_order(p, q.atoms@) implies best_c <= #[trigger] order_cost_spec(p, q.atoms@, *stats) by {
                lemma_var_order_perm(p, vars@);
                let k2 = choose|k2: int| 0 <= k2 < views(perms@).len() && views(perms@)[k2] == p;
                assert(perms@[k2]@ == p);
            }
            assert forall|p: Seq<u32>| is_var_order(p, q.atoms@) && #[trigger] order_cost_spec(p, q.atoms@, *stats) == best_c
                implies !lex_less(p, order@) by {
                lemma_var_order_perm(p, vars@);
                let k2 = choose|k2: int| 0 <= k2 < views(perms@).len() && views(perms@)[k2] == p;
                assert(perms@[k2]@ == p);
            }
        }
        return (order, best_c);
    }
    let mut order: Vec<u32> = Vec::new();
    let mut remaining = vars;
    proof {
        assert(order@.to_set() =~= Set::<u32>::empty());
        assert(greedy_order(order@, q.atoms@, *stats));
    }
    while remaining.len() > 0
        invariant
            stats.card.wf(),
            increasing(remaining@),
            order@.no_duplicates(),
            order@.to_set() + remaining@.to_set() == all_vars(q.atoms@),
            forall|x: u32| order@.contains(x) ==> !remaining@.contains(x),
            greedy_order(order@, q.atoms@, *stats),
        decreases remaining@.len(),
    {
        let mut best: usize = 0;
        let mut best_c: u128 = 0;
        let mut j: usize = 0;
        while j < remaining.len()
            invariant
                j <= remaining@.len(),
                remaining@.len() > 0,
                stats.card.wf(),
                j > 0 ==> best < j,
                j > 0 ==> best_c == order_cost_spec(order@.push(remaining@[best as int]), q.atoms@, *stats),
                forall|j2: int| 0 <= j2 < j ==> {
                    let cw = #[trigger] order_cost_spec(order@.push(remaining@[j2]), q.atoms@, *stats);
                    best_c < cw || (best_c == cw && best <= j2)
                },
            decreases remaining@.len() - j,
        {
            let mut cand = vstd::slice::slice_to_vec(order.as_slice());
            cand.push(remaining[j]);
            let c = order_cost(&cand, q, stats);
            if j == 0 || c < best_c {
                best = j;
                best_c = c;
            }
            j = j + 1;
        }
        let v = remaining[best];
        proof {
            assert forall|w: u32| #![trigger order_cost_spec(order@.push(w), q.atoms@, *stats)]
                all_vars(q.atoms@).contains(w) && !order@.contains(w) implies {
                    let c = order_cost_spec(order@.push(v), q.atoms@, *stats);
                    let cw = order_cost_spec(order@.push(w), q.atoms@, *stats);
                    c < cw || (c == cw && v <= w)
                } by {
                assert((order@.to_set() + remaining@.to_set()).contains(w));
                assert(!order@.to_set().contains(w));
                assert(remaining@.contains(w));
                let j2 = choose|j2: int| 0 <= j2 < remaining@.len() && remaining@[j2] == w;
                assert(order_cost_spec(order@.push(remaining@[j2]), q.atoms@, *stats) == order_cost_spec(order@.push(w), q.atoms@, *stats));
                if best < j2 { assert(remaining@[best as int] < remaining@[j2]); }
                if best > j2 { assert(remaining@[j2] < remaining@[best as int]); }
            }
            lemma_greedy_push(order@, v, q.atoms@, *stats);
        }
        let ghost old_order = order@;
        let ghost old_rem = remaining@;
        order.push(v);
        remaining.remove(best);
        proof {
            assert(old_rem.to_set().contains(v));
            lemma_push_to_set(old_order, v);
            assert(remaining@ =~= old_rem.remove(best as int));
            assert forall|a: int, b: int| 0 <= a < b < remaining@.len() implies remaining@[a] < remaining@[b] by {
                if a >= best { assert(remaining@[a] == old_rem[a + 1]); }
                if b >= best { assert(remaining@[b] == old_rem[b + 1]); }
                if a < best { assert(remaining@[a] == old_rem[a]); }
                if b < best { assert(remaining@[b] == old_rem[b]); }
            }
            assert forall|x: u32| remaining@.contains(x) <==> (old_rem.contains(x) && x != v) by {
                if remaining@.contains(x) {
                    let k = choose|k: int| 0 <= k < remaining@.len() && remaining@[k] == x;
                    if k < best { assert(old_rem[k] == x); assert(old_rem[k] < old_rem[best as int]); }
                    else { assert(old_rem[k + 1] == x); assert(old_rem[best as int] < old_rem[k + 1]); }
                }
                if old_rem.contains(x) && x != v {
                    let k = choose|k: int| 0 <= k < old_rem.len() && old_rem[k] == x;
                    if k < best { assert(remaining@[k] == x); } else { assert(k != best); assert(remaining@[k - 1] == x); }
                }
            }
            assert forall|x: u32| order@.contains(x) implies !remaining@.contains(x) by {
                if x != v { assert(old_order.to_set().contains(x) || x == v); assert(old_order.contains(x)); }
            }
            assert(order@.no_duplicates()) by {
                assert(!old_order.contains(v));
                assert forall|a: int, b: int| 0 <= a < order@.len() && 0 <= b < order@.len() && a != b implies order@[a] != order@[b] by {
                    if a == old_order.len() { assert(old_order[b] == order@[b]); assert(old_order.contains(order@[b])); }
                    if b == old_order.len() { assert(old_order[a] == order@[a]); assert(old_order.contains(order@[a])); }
                }
            }
            assert(order@.to_set() + remaining@.to_set() =~= old_order.to_set() + old_rem.to_set());
        }
    }
    proof {
        assert(remaining@.to_set() =~= Set::<u32>::empty());
        assert(order@.to_set() =~= all_vars(q.atoms@));
    }
    let c = order_cost(&order, q, stats);
    (order, c)
}


impl Default for RelCards {
    fn default() -> (m: RelCards)
        ensures
            m.wf(),
            m.view() == Map::<Seq<char>, u64>::empty(),
    {
        RelCards::new()
    }
}

impl Default for Stats {
    fn default() -> (s: Stats)
        ensures
            s.card.wf(),
            s.card.view() == Map::<Seq<char>, u64>::empty(),
            s.domain@ == Map::<Var, u64>::empty(),
    {
        Stats { card: RelCards::new(), domain: HashMap::new() }
    }
}

/// A full WCOJ plan: how the body decomposes, and the variable order to run.
#[derive(Clone, Debug)]
pub struct Plan {
    pub decomposition: Decomposition,
    pub order: Vec<Var>,
    pub est_cost: u128,
    /// Tensor-contraction width for the same body: the induced treewidth + 1
    /// of the min-degree elimination order.
    pub contraction_width: usize,
}

/// Plan a query: decompose it, pick a cost-based variable order, and record the
/// tensor-contraction width.
pub fn plan(q: &Query, stats: &Stats) -> (p: Plan)
    requires
        stats.card.wf(),
    ensures
        decomposes(*q, p.decomposition),
        is_var_order(p.order@, q.atoms@),
        p.est_cost == order_cost_spec(p.order@, q.atoms@, *stats),
        all_vars(q.atoms@).len() <= 8 ==> forall|o: Seq<u32>|
            is_var_order(o, q.atoms@) ==> p.est_cost <= #[trigger] order_cost_spec(o, q.atoms@, *stats),
        all_vars(q.atoms@).len() <= 8 ==> forall|o: Seq<u32>|
            is_var_order(o, q.atoms@) && #[trigger] order_cost_spec(o, q.atoms@, *stats) == p.est_cost ==> !lex_less(o, p.order@),
        all_vars(q.atoms@).len() > 8 ==> greedy_order(p.order@, q.atoms@, *stats),
        exists|o: Seq<u32>| #[trigger] min_degree_order(interaction(q.atoms@), o)
            && p.contraction_width == elim_width(interaction(q.atoms@), o),
{
    let decomposition = hypertree_decompose(q);
    let (order, est_cost) = cost_based_order(q, stats);
    let c = contraction_order(q);
    assert(min_degree_order(interaction(q.atoms@), c.order@));
    Plan { decomposition, order, est_cost, contraction_width: c.width }
}

} // verus!

verus! {

/// The atoms peeled into a join tree, in removal order.
pub open spec fn peeled(jt: Seq<(usize, Option<usize>)>) -> Seq<usize> {
    jt.map_values(|x: (usize, Option<usize>)| x.0)
}

/// The parent of join-tree entry `t`, if it has one, is another atom that is
/// not yet peeled at that point: it is peeled later or stays in the core.
pub open spec fn parent_later(jt: Seq<(usize, Option<usize>)>, core: Seq<usize>, t: int) -> bool {
    match jt[t].1 {
        Some(p) => p != jt[t].0 && (core.contains(p) || exists|t2: int| t < t2 < jt.len() && #[trigger] jt[t2].0 == p),
        None => true,
    }
}

/// Among the atoms `core`, atom `e` is no ear: it shares some variable with
/// another of them, and every other one lacks one of the variables it shares.
#[verifier::opaque]
pub open spec fn no_ear_at(vs: Seq<Seq<u32>>, core: Seq<usize>, e: usize) -> bool {
    &&& shared(vs, core, e).len() > 0
    &&& forall|o: int| 0 <= o < core.len() && core[o] != e ==> exists|k: int|
        0 <= k < shared(vs, core, e).len() && !vs[#[trigger] core[o] as int].contains(shared(vs, core, e)[k])
}

proof fn lemma_witness_from(vs: Seq<Seq<u32>>, alive: Seq<usize>, e: usize, sh: Seq<u32>, idx: int)
    requires
        0 <= idx,
    ensures
        witness_from(vs, alive, e, sh, idx) matches Some(o) ==> o != e && alive.contains(o) && covers(vs, o, sh),
        witness_from(vs, alive, e, sh, idx) is None ==>
            forall|k: int| idx <= k < alive.len() && alive[k] != e ==> !covers(vs, #[trigger] alive[k], sh),
    decreases alive.len() - idx,
{
    if idx < alive.len() {
        lemma_witness_from(vs, alive, e, sh, idx + 1);
    }
}

proof fn lemma_not_an_ear(vs: Seq<Seq<u32>>, alive: Seq<usize>, e: usize)
    requires
        shared(vs, alive, e).len() > 0,
        forall|k: int| 0 <= k < alive.len() && alive[k] != e ==> !covers(vs, #[trigger] alive[k], shared(vs, alive, e)),
    ensures
        no_ear_at(vs, alive, e),
{
    reveal(no_ear_at);
    let sh = shared(vs, alive, e);
    assert forall|o: int| 0 <= o < alive.len() && alive[o] != e implies exists|k: int|
        0 <= k < sh.len() && !vs[#[trigger] alive[o] as int].contains(sh[k]) by {
        assert(!covers(vs, alive[o], sh));
    }
}

proof fn lemma_no_ear_from(vs: Seq<Seq<u32>>, alive: Seq<usize>, idx: int)
    requires
        0 <= idx,
        ear_from(vs, alive, idx) is None,
    ensures
        forall|k: int| idx <= k < alive.len() ==> no_ear_at(vs, alive, #[trigger] alive[k]),
    decreases alive.len() - idx,
{
    if idx < alive.len() {
        lemma_no_ear_from(vs, alive, idx + 1);
        let e = alive[idx];
        lemma_witness_from(vs, alive, e, shared(vs, alive, e), 0);
        lemma_not_an_ear(vs, alive, e);
    }
}

#[verifier::rlimit(40)]
proof fn lemma_gyo_structure(vs: Seq<Seq<u32>>, alive: Seq<usize>, tree: Seq<(usize, Option<usize>)>)
    ensures
        ({
            let (core, jt) = gyo(vs, alive, tree);
            &&& tree.len() <= jt.len()
            &&& jt.take(tree.len() as int) == tree
            &&& (core + peeled(jt.skip(tree.len() as int))).to_multiset() == alive.to_multiset()
            &&& forall|k: int| 0 <= k < core.len() ==> no_ear_at(vs, core, #[trigger] core[k])
            &&& forall|t: int| tree.len() <= t < jt.len() ==> #[trigger] parent_later(jt, core, t)
        }),
    decreases alive.len(),
{
    broadcast use vstd::seq_lib::group_to_multiset_ensures;
    match ear_from(vs, alive, 0) {
        None => {
            lemma_no_ear_from(vs, alive, 0);
            assert(peeled(tree.skip(tree.len() as int)) =~= Seq::<usize>::empty());
            assert(alive + Seq::<usize>::empty() =~= alive);
            assert(tree.take(tree.len() as int) =~= tree);
        },
        Some((pos, e, w)) => {
            if 0 <= pos < alive.len() {
                lemma_ear_from_shape(vs, alive, 0);
                let rest = alive.remove(pos);
                let t1 = tree.push((e, w));
                lemma_gyo_structure(vs, rest, t1);
                let (core, jt) = gyo(vs, rest, t1);
                assert(gyo(vs, alive, tree) == (core, jt));
                assert(jt.take(tree.len() as int) =~= tree) by {
                    assert(jt.take(t1.len() as int) == t1);
                    assert forall|i: int| 0 <= i < tree.len() implies jt[i] == tree[i] by {
                        assert(jt.take(t1.len() as int)[i] == t1[i]);
                    }
                }
                let tail1 = peeled(jt.skip(t1.len() as int));
                let tail0 = peeled(jt.skip(tree.len() as int));
                assert(jt[tree.len() as int] == (e, w)) by {
                    assert(jt.take(t1.len() as int)[tree.len() as int] == t1[tree.len() as int]);
                }
                assert(tail0 =~= seq![e] + tail1);
                assert(alive =~= rest.insert(pos, e));
                vstd::seq_lib::to_multiset_insert(rest, pos, e);
                assert((core + tail0).to_multiset() =~= (core + tail1).to_multiset().insert(e)) by {
                    vstd::seq_lib::lemma_multiset_commutative(core, tail0);
                    vstd::seq_lib::lemma_multiset_commutative(core, tail1);
                    assert(tail0 =~= tail1.insert(0, e));
                    vstd::seq_lib::to_multiset_insert(tail1, 0, e);
                }
                assert forall|t: int| tree.len() <= t < jt.len() implies #[trigger] parent_later(jt, core, t) by {
                    if t == tree.len() {
                        if let Some(p) = w {
                            lemma_witness_from(vs, alive, e, shared(vs, alive, e), 0);
                            // the parent stays alive after e is removed
                            assert(alive.contains(p));
                            let i = choose|i: int| 0 <= i < alive.len() && alive[i] == p;
                            assert(i != pos);
                            assert(rest.contains(p)) by {
                                if i < pos { assert(rest[i] == p); } else { assert(rest[i - 1] == p); }
                            }
                            assert((core + tail1).to_multiset().count(p) > 0) by {
                                vstd::seq_lib::to_multiset_contains(rest, p);
                            }
                            vstd::seq_lib::to_multiset_contains(core + tail1, p);
                            assert((core + tail1).contains(p));
                            let k = choose|k: int| 0 <= k < (core + tail1).len() && (core + tail1)[k] == p;
                            if k >= core.len() {
                                let t2 = t1.len() + (k - core.len());
                                assert(jt[t2].0 == p) by {
                                    assert(tail1[k - core.len()] == jt.skip(t1.len() as int)[k - core.len()].0);
                                }
                            } else {
                                assert(core[k] == p);
                            }
                        }
                    }
                }
            } else {
                lemma_ear_from_shape(vs, alive, 0);
            }
        },
    }
}

proof fn lemma_ear_from_shape(vs: Seq<Seq<u32>>, alive: Seq<usize>, idx: int)
    requires
        0 <= idx,
    ensures
        ear_from(vs, alive, idx) matches Some((pos, e, w)) ==> idx <= pos < alive.len() && e == alive[pos]
            && w == witness_from(vs, alive, e, shared(vs, alive, e), 0)
            && (shared(vs, alive, e).len() == 0 || w is Some),
    decreases alive.len() - idx,
{
    if idx < alive.len() {
        lemma_ear_from_shape(vs, alive, idx + 1);
    }
}

/// Some atom not yet peeled at join-tree entry `t` (one left in the core or
/// peeled later), other than `e`, holds variable `v`.
pub open spec fn unpeeled_has(vs: Seq<Seq<u32>>, jt: Seq<(usize, Option<usize>)>, core: Seq<usize>, t: int, e: usize, v: u32) -> bool {
    ||| exists|c: int| 0 <= c < core.len() && core[c] != e && (#[trigger] vs[core[c] as int]).contains(v)
    ||| exists|t2: int| t < t2 < jt.len() && jt[t2].0 != e && (#[trigger] vs[jt[t2].0 as int]).contains(v)
}

/// The parent of entry `t` holds every variable its atom shares with the
/// atoms not yet peeled; an entry without a parent is the last one, and
/// leaves no core.
pub open spec fn parent_covers(vs: Seq<Seq<u32>>, jt: Seq<(usize, Option<usize>)>, core: Seq<usize>, t: int) -> bool {
    match jt[t].1 {
        Some(p) => forall|v: u32| vs[jt[t].0 as int].contains(v) && #[trigger] unpeeled_has(vs, jt, core, t, jt[t].0, v)
            ==> vs[p as int].contains(v),
        None => t == jt.len() - 1 && core.len() == 0,
    }
}

#[verifier::rlimit(40)]
proof fn lemma_gyo_parents(vs: Seq<Seq<u32>>, alive: Seq<usize>, tree: Seq<(usize, Option<usize>)>)
    requires
        alive.no_duplicates(),
    ensures
        ({
            let (core, jt) = gyo(vs, alive, tree);
            forall|t: int| tree.len() <= t < jt.len() ==> #[trigger] parent_covers(vs, jt, core, t)
        }),
    decreases alive.len(),
{
    broadcast use vstd::seq_lib::group_to_multiset_ensures;
    lemma_ear_from_shape(vs, alive, 0);
    if let Some((pos, e, w)) = ear_from(vs, alive, 0) {
        let rest = alive.remove(pos);
        let t1 = tree.push((e, w));
        assert(rest.no_duplicates()) by {
            assert forall|i: int, j: int| 0 <= i < rest.len() && 0 <= j < rest.len() && i != j implies rest[i] != rest[j] by {
                let ii = if i < pos { i } else { i + 1 };
                let jj = if j < pos { j } else { j + 1 };
                assert(rest[i] == alive[ii] && rest[j] == alive[jj]);
            }
        }
        lemma_gyo_parents(vs, rest, t1);
        lemma_gyo_structure(vs, rest, t1);
        let (core, jt) = gyo(vs, rest, t1);
        assert(gyo(vs, alive, tree) == (core, jt));
        let t0 = tree.len() as int;
        assert(jt[t0] == (e, w)) by {
            assert(jt.take(t1.len() as int)[t0] == t1[t0]);
        }
        let tail1 = peeled(jt.skip(t1.len() as int));
        // the atoms not yet peeled after e are exactly the rest of the alive ones
        assert forall|a: usize| (core + tail1).contains(a) <==> rest.contains(a) by {
            vstd::seq_lib::to_multiset_contains(core + tail1, a);
            vstd::seq_lib::to_multiset_contains(rest, a);
            if (core + tail1).contains(a) { assert((core + tail1).to_multiset().count(a) > 0); }
            if rest.contains(a) { assert(rest.to_multiset().count(a) > 0); }
        }
        assert forall|t: int| tree.len() <= t < jt.len() implies #[trigger] parent_covers(vs, jt, core, t) by {
            if t == t0 {
                let sh = shared(vs, alive, e);
                let pr = |v: u32| occurs_elsewhere(vs, alive, e, v);
                lemma_witness_from(vs, alive, e, sh, 0);
                match w {
                    Some(p) => {
                        assert forall|v: u32| vs[e as int].contains(v) && #[trigger] unpeeled_has(vs, jt, core, t, e, v)
                            implies vs[p as int].contains(v) by {
                            let a: usize = if exists|c: int| 0 <= c < core.len() && core[c] != e && (#[trigger] vs[core[c] as int]).contains(v) {
                                let c = choose|c: int| 0 <= c < core.len() && core[c] != e && (#[trigger] vs[core[c] as int]).contains(v);
                                assert((core + tail1)[c] == core[c]);
                                core[c]
                            } else {
                                let t2 = choose|t2: int| t < t2 < jt.len() && jt[t2].0 != e && (#[trigger] vs[jt[t2].0 as int]).contains(v);
                                assert(tail1[t2 - t1.len()] == jt[t2].0);
                                assert((core + tail1)[core.len() + t2 - t1.len()] == jt[t2].0);
                                jt[t2].0
                            };
                            assert((core + tail1).contains(a));
                            assert(rest.contains(a));
                            let ri = choose|ri: int| 0 <= ri < rest.len() && rest[ri] == a;
                            let ai = if ri < pos { ri } else { ri + 1 };
                            assert(alive[ai] == a);
                            assert(occurs_elsewhere(vs, alive, e, v));
                            let vi = choose|vi: int| 0 <= vi < vs[e as int].len() && vs[e as int][vi] == v;
                            vs[e as int].filter_lemma(pr);
                            assert(sh == vs[e as int].filter(pr));
                            assert(sh.contains(v));
                            let k = choose|k: int| 0 <= k < sh.len() && sh[k] == v;
                            assert(covers(vs, p, sh));
                        }
                    },
                    None => {
                        assert(sh.len() == 0);
                        assert(rest.len() == 0) by {
                            if rest.len() > 0 {
                                let o = if pos == 0 { 1int } else { 0int };
                                assert(alive[o] != e);
                                assert(covers(vs, alive[o], sh));
                            }
                        }
                        assert(ear_from(vs, rest, 0) is None);
                        assert(gyo(vs, rest, t1) == (rest, t1));
                    },
                }
            } else {
                assert(parent_covers(vs, jt, core, t));
            }
        }
    }
}

/// The shape of a GYO decomposition: the atoms of the query are exactly the
/// cyclic core together with the atoms of the join tree, each once; a peeled
/// atom's parent is another atom, one not yet peeled when the atom was
/// removed (it is peeled later or stays in the core), and it holds every
/// variable the peeled atom shares with the atoms not yet peeled; an atom is
/// peeled without a parent only as the last one, leaving no core; and no atom
/// of the core is an ear of the core — each shares a variable with another
/// core atom, and no other core atom holds all the variables it shares.
pub proof fn lemma_decomposition_structure(q: Query, d: Decomposition)
    requires
        q.atoms@.len() <= usize::MAX,
        decomposes(q, d),
    ensures
        (d.cyclic_core@ + peeled(d.join_tree@)).to_multiset() == Seq::new(q.atoms@.len(), |i: int| i as usize).to_multiset(),
        forall|t: int| 0 <= t < d.join_tree@.len() ==> #[trigger] parent_later(d.join_tree@, d.cyclic_core@, t),
        exists|vs: Seq<Seq<u32>>| #[trigger] var_sets(q, vs)
            && forall|t: int| 0 <= t < d.join_tree@.len() ==> #[trigger] parent_covers(vs, d.join_tree@, d.cyclic_core@, t),
        exists|vs: Seq<Seq<u32>>| #[trigger] var_sets(q, vs)
            && forall|k: int| 0 <= k < d.cyclic_core@.len() ==> no_ear_at(vs, d.cyclic_core@, #[trigger] d.cyclic_core@[k]),
{
    let vs = choose|vs: Seq<Seq<u32>>| #[trigger] var_sets(q, vs) && (d.cyclic_core@, d.join_tree@) == gyo(
        vs,
        Seq::new(q.atoms@.len(), |i: int| i as usize),
        Seq::empty(),
    );
    let all = Seq::new(q.atoms@.len(), |i: int| i as usize);
    lemma_gyo_structure(vs, all, Seq::empty());
    assert(all.no_duplicates()) by {
        assert forall|i: int, j: int| 0 <= i < all.len() && 0 <= j < all.len() && i != j implies all[i] != all[j] by {
            assert(all[i] == i as usize && all[j] == j as usize);
            assert(i <= usize::MAX && j <= usize::MAX);
        }
    }
    lemma_gyo_parents(vs, all, Seq::empty());
    assert(d.join_tree@.skip(0) =~= d.join_tree@);
}

} // verus!
