//! Tensor-contraction planning: a conjunctive query is a tensor network whose
//! shared variables are contracted indices; the plan is a variable
//! elimination order, and its width (largest intermediate tensor arity) is the
//! induced treewidth + 1 of the min-degree heuristic.
use vstd::prelude::*;
use std::collections::HashMap;
use crate::gpu::plan::{Atom, Query, Var, all_vars, increasing, insert_sorted, lemma_increasing_no_dup};

pub mod count;

pub use crate::gpu::contraction::count::contract_count;

verus! {

broadcast use vstd::std_specs::hash::group_hash_axioms;

/// A contraction plan: the variable elimination order and the induced width
/// (max intermediate tensor arity = treewidth + 1).
#[derive(Clone, Debug, PartialEq, Eq)]
pub struct Contraction {
    pub order: Vec<Var>,
    pub width: usize,
}

/// Positions `i < j` of `vs` hold `u` and `w` (in either order).
pub open spec fn pair_at(vs: Seq<u32>, i: int, j: int, u: u32, w: u32) -> bool {
    0 <= i < j < vs.len() && ((vs[i] == u && vs[j] == w) || (vs[i] == w && vs[j] == u))
}

/// `u` and `w` occur together in some atom.
pub open spec fn co_occur(atoms: Seq<Atom>, u: u32, w: u32) -> bool {
    exists|a: int, i: int, j: int| 0 <= a < atoms.len() && #[trigger] pair_at(atoms[a].vars@, i, j, u, w)
}

/// The interaction graph: one vertex per body variable, an edge between two
/// distinct variables that co-occur in an atom.
pub open spec fn interaction(atoms: Seq<Atom>) -> Map<u32, Set<u32>> {
    Map::new(
        |u: u32| all_vars(atoms).contains(u),
        |u: u32| Set::new(|w: u32| w != u && co_occur(atoms, u, w)),
    )
}

/// Eliminate `v`: its neighbours become a clique, and `v` leaves the graph.
pub open spec fn elim_step(g: Map<u32, Set<u32>>, v: u32) -> Map<u32, Set<u32>> {
    Map::new(
        |u: u32| g.dom().contains(u) && u != v,
        |u: u32| if g[v].contains(u) { g[u].union(g[v]).remove(u).remove(v) } else { g[u] },
    )
}

/// The graph left after eliminating `order` in turn.
pub open spec fn elim_run(g: Map<u32, Set<u32>>, order: Seq<u32>) -> Map<u32, Set<u32>>
    decreases order.len(),
{
    if order.len() == 0 { g } else { elim_step(elim_run(g, order.drop_last()), order.last()) }
}

/// `v` has the least degree in `g`, the smallest id among equals.
pub open spec fn is_min_degree(g: Map<u32, Set<u32>>, v: u32) -> bool {
    &&& g.dom().contains(v)
    &&& forall|w: u32| #[trigger] g.dom().contains(w) ==> g[v].len() < g[w].len() || (g[v].len() == g[w].len() && v <= w)
}

/// `order` eliminates every vertex of `g`, each time a min-degree one.
pub open spec fn min_degree_order(g: Map<u32, Set<u32>>, order: Seq<u32>) -> bool {
    &&& forall|i: int| 0 <= i < order.len() ==> is_min_degree(#[trigger] elim_run(g, order.take(i)), order[i])
    &&& elim_run(g, order).dom() == Set::<u32>::empty()
}

/// The largest bag (eliminated vertex plus its neighbours) along `order`.
pub open spec fn elim_width(g: Map<u32, Set<u32>>, order: Seq<u32>) -> nat
    decreases order.len(),
{
    if order.len() == 0 {
        0
    } else {
        let w = elim_width(g, order.drop_last());
        let b = elim_run(g, order.drop_last())[order.last()].len() + 1;
        if w >= b { w } else { b }
    }
}

/// Undirected, loop-free, closed over its vertices, finite neighbourhoods.
pub open spec fn graph_ok(g: Map<u32, Set<u32>>) -> bool {
    forall|u: u32| #[trigger] g.dom().contains(u) ==> {
        &&& g[u].finite()
        &&& !g[u].contains(u)
        &&& forall|w: u32| #[trigger] g[u].contains(w) ==> g.dom().contains(w) && g[w].contains(u)
    }
}

/// The graph held by sorted adjacency lists.
pub open spec fn gview(adj: Map<u32, Vec<u32>>) -> Map<u32, Set<u32>> {
    Map::new(|u: u32| adj.dom().contains(u), |u: u32| adj[u]@.to_set())
}

pub open spec fn lists_sorted(adj: Map<u32, Vec<u32>>) -> bool {
    forall|u: u32| #[trigger] adj.dom().contains(u) ==> increasing(adj[u]@)
}

/// Remove `x` from a strictly increasing vector.
fn remove_sorted(v: &mut Vec<u32>, x: u32)
    requires
        increasing(old(v)@),
    ensures
        increasing(final(v)@),
        final(v)@.to_set() == old(v)@.to_set().remove(x),
{
    let mut i: usize = 0;
    while i < v.len() && v[i] != x
        invariant
            i <= v@.len(),
            forall|q: int| 0 <= q < i ==> v@[q] != x,
        decreases v@.len() - i,
    {
        i = i + 1;
    }
    let ghost old_v = v@;
    if i == v.len() {
        assert(v@.to_set() =~= v@.to_set().remove(x));
        return;
    }
    v.remove(i);
    proof {
        assert forall|a: int, b: int| 0 <= a < b < v@.len() implies v@[a] < v@[b] by {
            if a >= i { assert(v@[a] == old_v[a + 1]); } else { assert(v@[a] == old_v[a]); }
            if b >= i { assert(v@[b] == old_v[b + 1]); } else { assert(v@[b] == old_v[b]); }
        }
        assert forall|y: u32| v@.contains(y) <==> (old_v.contains(y) && y != x) by {
            if v@.contains(y) {
                let k = choose|k: int| 0 <= k < v@.len() && v@[k] == y;
                if k < i { assert(old_v[k] == y); assert(old_v[k] < old_v[i as int]); }
                else { assert(old_v[k + 1] == y); assert(old_v[i as int] < old_v[k + 1]); }
            }
            if old_v.contains(y) && y != x {
                let k = choose|k: int| 0 <= k < old_v.len() && old_v[k] == y;
                if k < i { assert(v@[k] == y); } else { assert(v@[k - 1] == y); }
            }
        }
        assert(v@.to_set() =~= old_v.to_set().remove(x));
    }
}

/// Add `w` to the neighbour list of `u`.
fn add_nbr(adj: &mut HashMap<u32, Vec<u32>>, u: u32, w: u32)
    requires
        old(adj)@.contains_key(u),
        lists_sorted(old(adj)@),
    ensures
        lists_sorted(final(adj)@),
        final(adj)@.dom() == old(adj)@.dom(),
        gview(final(adj)@) == gview(old(adj)@).insert(u, gview(old(adj)@)[u].insert(w)),
{
    let mut l = adj.remove(&u).unwrap();
    insert_sorted(&mut l, w);
    adj.insert(u, l);
    assert(adj@.dom() =~= old(adj)@.dom());
    assert(gview(adj@) =~= gview(old(adj)@).insert(u, gview(old(adj)@)[u].insert(w)));
}

/// The interaction graph of the body, as sorted adjacency lists.
fn interaction_lists(q: &Query) -> (adj: HashMap<u32, Vec<u32>>)
    ensures
        lists_sorted(adj@),
        gview(adj@) == interaction(q.atoms@),
{
    let vars = q.vars();
    let mut adj: HashMap<u32, Vec<u32>> = HashMap::new();
    let mut i: usize = 0;
    while i < vars.len()
        invariant
            i <= vars@.len(),
            lists_sorted(adj@),
            adj@.dom() == vars@.take(i as int).to_set(),
            forall|u: u32| #[trigger] adj@.contains_key(u) ==> adj@[u]@ == Seq::<u32>::empty(),
        decreases vars@.len() - i,
    {
        adj.insert(vars[i], Vec::new());
        proof {
            assert(vars@.take(i + 1) =~= vars@.take(i as int).push(vars@[i as int]));
            crate::math::lemma_push_to_set(vars@.take(i as int), vars@[i as int]);
            assert(adj@.dom() =~= vars@.take(i + 1).to_set());
        }
        i = i + 1;
    }
    assert(vars@.take(vars@.len() as int) =~= vars@);
    let ghost atoms = q.atoms@;
    let mut k: usize = 0;
    while k < q.atoms.len()
        invariant
            k <= atoms.len(),
            atoms == q.atoms@,
            lists_sorted(adj@),
            adj@.dom() == all_vars(atoms),
            forall|u: u32| #[trigger] adj@.contains_key(u) ==> gview(adj@)[u] == Set::new(|w: u32| w != u && co_occur(atoms.take(k as int), u, w)),
        decreases atoms.len() - k,
    {
        let vs = &q.atoms[k].vars;
        assert(vs@ == atoms[k as int].vars@);
        let mut i: usize = 0;
        while i < vs.len()
            invariant
                k < atoms.len(),
                atoms == q.atoms@,
                vs@ == atoms[k as int].vars@,
                i <= vs@.len(),
                lists_sorted(adj@),
                adj@.dom() == all_vars(atoms),
                forall|u: u32| #[trigger] adj@.contains_key(u) ==> gview(adj@)[u] == Set::new(|w: u32| w != u && (
                    co_occur(atoms.take(k as int), u, w)
                    || exists|i2: int, j2: int| i2 < i && #[trigger] pair_at(vs@, i2, j2, u, w))),
            decreases vs@.len() - i,
        {
            let mut j: usize = i + 1;
            while j < vs.len()
                invariant
                    k < atoms.len(),
                    atoms == q.atoms@,
                    vs@ == atoms[k as int].vars@,
                    i < vs@.len(),
                    i + 1 <= j <= vs@.len(),
                    lists_sorted(adj@),
                    adj@.dom() == all_vars(atoms),
                    forall|u: u32| #[trigger] adj@.contains_key(u) ==> gview(adj@)[u] == Set::new(|w: u32| w != u && (
                        co_occur(atoms.take(k as int), u, w)
                        || exists|i2: int, j2: int| (i2 < i || (i2 == i && j2 < j)) && #[trigger] pair_at(vs@, i2, j2, u, w))),
                decreases vs@.len() - j,
            {
                let a = vs[i];
                let b = vs[j];
                let ghost before = gview(adj@);
                let ghost old_adj = adj@;
                proof {
                    assert(atoms[k as int].vars@.contains(a)) by { assert(vs@[i as int] == a); }
                    assert(atoms[k as int].vars@.contains(b)) by { assert(vs@[j as int] == b); }
                    assert(all_vars(atoms).contains(a));
                    assert(all_vars(atoms).contains(b));
                }
                if a != b {
                    add_nbr(&mut adj, a, b);
                    add_nbr(&mut adj, b, a);
                }
                proof {
                    assert forall|u: u32| #[trigger] adj@.contains_key(u) implies gview(adj@)[u] == Set::new(|w: u32| w != u && (
                        co_occur(atoms.take(k as int), u, w)
                        || exists|i2: int, j2: int| (i2 < i || (i2 == i && j2 < j + 1)) && #[trigger] pair_at(vs@, i2, j2, u, w))) by {
                        assert forall|w: u32| gview(adj@)[u].contains(w) <==> (w != u && (
                            co_occur(atoms.take(k as int), u, w)
                            || exists|i2: int, j2: int| (i2 < i || (i2 == i && j2 < j + 1)) && #[trigger] pair_at(vs@, i2, j2, u, w))) by {
                            assert(old_adj.contains_key(u));
                            assert(before.dom().contains(u));
                            if a != b {
                                assert(gview(adj@)[u] == (if u == b { before[b].insert(a) } else if u == a { before[a].insert(b) } else { before[u] }));
                            } else {
                                assert(gview(adj@)[u] == before[u]);
                            }
                            if pair_at(vs@, i as int, j as int, u, w) {
                                assert((u == a && w == b) || (u == b && w == a));
                            }
                            if exists|i2: int, j2: int| (i2 < i || (i2 == i && j2 < j + 1)) && #[trigger] pair_at(vs@, i2, j2, u, w) {
                                let (i2, j2) = choose|i2: int, j2: int| (i2 < i || (i2 == i && j2 < j + 1)) && #[trigger] pair_at(vs@, i2, j2, u, w);
                                if !(i2 < i || (i2 == i && j2 < j)) {
                                    assert(i2 == i && j2 == j);
                                }
                            }
                        }
                        assert(gview(adj@)[u] =~= Set::new(|w: u32| w != u && (
                            co_occur(atoms.take(k as int), u, w)
                            || exists|i2: int, j2: int| (i2 < i || (i2 == i && j2 < j + 1)) && #[trigger] pair_at(vs@, i2, j2, u, w))));
                    }
                }
                j = j + 1;
            }
            proof {
                assert forall|u: u32| #[trigger] adj@.contains_key(u) implies gview(adj@)[u] == Set::new(|w: u32| w != u && (
                    co_occur(atoms.take(k as int), u, w)
                    || exists|i2: int, j2: int| i2 < i + 1 && #[trigger] pair_at(vs@, i2, j2, u, w))) by {
                    assert forall|w: u32| #[trigger] gview(adj@)[u].contains(w) <==> (w != u && (
                        co_occur(atoms.take(k as int), u, w)
                        || exists|i2: int, j2: int| i2 < i + 1 && #[trigger] pair_at(vs@, i2, j2, u, w))) by {
                        if exists|i2: int, j2: int| i2 < i + 1 && #[trigger] pair_at(vs@, i2, j2, u, w) {
                            let (i2, j2) = choose|i2: int, j2: int| i2 < i + 1 && #[trigger] pair_at(vs@, i2, j2, u, w);
                            assert((i2 < i || (i2 == i && j2 < vs@.len())) && pair_at(vs@, i2, j2, u, w));
                        }
                        if exists|i2: int, j2: int| (i2 < i || (i2 == i && j2 < vs@.len())) && #[trigger] pair_at(vs@, i2, j2, u, w) {
                            let (i2, j2) = choose|i2: int, j2: int| (i2 < i || (i2 == i && j2 < vs@.len())) && #[trigger] pair_at(vs@, i2, j2, u, w);
                            assert(i2 < i + 1 && pair_at(vs@, i2, j2, u, w));
                        }
                    }
                    assert(gview(adj@)[u] =~= Set::new(|w: u32| w != u && (
                        co_occur(atoms.take(k as int), u, w)
                        || exists|i2: int, j2: int| i2 < i + 1 && #[trigger] pair_at(vs@, i2, j2, u, w))));
                }
            }
            i = i + 1;
        }
        proof {
            assert forall|u: u32| #[trigger] adj@.contains_key(u) implies gview(adj@)[u] == Set::new(|w: u32| w != u && co_occur(atoms.take(k + 1), u, w)) by {
                assert forall|w: u32| #[trigger] gview(adj@)[u].contains(w) <==> (w != u && co_occur(atoms.take(k + 1), u, w)) by {
                    if co_occur(atoms.take(k + 1), u, w) {
                        let (a, i2, j2) = choose|a: int, i2: int, j2: int| 0 <= a < atoms.take(k + 1).len() && #[trigger] pair_at(atoms.take(k + 1)[a].vars@, i2, j2, u, w);
                        if a < k {
                            assert(atoms.take(k as int)[a] == atoms.take(k + 1)[a]);
                            assert(pair_at(atoms.take(k as int)[a].vars@, i2, j2, u, w));
                        } else {
                            assert(pair_at(vs@, i2, j2, u, w));
                        }
                    }
                    if co_occur(atoms.take(k as int), u, w) {
                        let (a, i2, j2) = choose|a: int, i2: int, j2: int| 0 <= a < atoms.take(k as int).len() && #[trigger] pair_at(atoms.take(k as int)[a].vars@, i2, j2, u, w);
                        assert(atoms.take(k as int)[a] == atoms.take(k + 1)[a]);
                        assert(pair_at(atoms.take(k + 1)[a].vars@, i2, j2, u, w));
                    }
                    if exists|i2: int, j2: int| i2 < vs@.len() && #[trigger] pair_at(vs@, i2, j2, u, w) {
                        let (i2, j2) = choose|i2: int, j2: int| i2 < vs@.len() && #[trigger] pair_at(vs@, i2, j2, u, w);
                        assert(atoms.take(k + 1)[k as int] == atoms[k as int]);
                        assert(pair_at(atoms.take(k + 1)[k as int].vars@, i2, j2, u, w));
                    }
                }
                assert(gview(adj@)[u] =~= Set::new(|w: u32| w != u && co_occur(atoms.take(k + 1), u, w)));
            }
        }
        k = k + 1;
    }
    proof {
        assert(atoms.take(atoms.len() as int) =~= atoms);
        assert(gview(adj@) =~= interaction(atoms));
    }
    adj
}


proof fn lemma_interaction_ok(atoms: Seq<Atom>, adj: Map<u32, Vec<u32>>)
    requires
        gview(adj) == interaction(atoms),
    ensures
        graph_ok(interaction(atoms)),
{
    broadcast use vstd::seq_lib::seq_to_set_is_finite;
    let g = interaction(atoms);
    assert forall|u: u32| #[trigger] g.dom().contains(u) implies {
        &&& g[u].finite()
        &&& !g[u].contains(u)
        &&& forall|w: u32| #[trigger] g[u].contains(w) ==> g.dom().contains(w) && g[w].contains(u)
    } by {
        assert(g[u] == adj[u]@.to_set());
        assert forall|w: u32| #[trigger] g[u].contains(w) implies g.dom().contains(w) && g[w].contains(u) by {
            let (a, i, j) = choose|a: int, i: int, j: int| 0 <= a < atoms.len() && #[trigger] pair_at(atoms[a].vars@, i, j, u, w);
            assert(pair_at(atoms[a].vars@, i, j, w, u));
            if atoms[a].vars@[i] == w { assert(atoms[a].vars@.contains(w)); } else { assert(atoms[a].vars@[j] == w); assert(atoms[a].vars@.contains(w)); }
            assert(co_occur(atoms, w, u));
        }
    }
}

/// Eliminating a vertex keeps the graph undirected, loop-free and closed.
proof fn lemma_elim_ok(g: Map<u32, Set<u32>>, v: u32)
    requires
        graph_ok(g),
        g.dom().contains(v),
    ensures
        graph_ok(elim_step(g, v)),
{
    let h = elim_step(g, v);
    assert forall|u: u32| #[trigger] h.dom().contains(u) implies {
        &&& h[u].finite()
        &&& !h[u].contains(u)
        &&& forall|w: u32| #[trigger] h[u].contains(w) ==> h.dom().contains(w) && h[w].contains(u)
    } by {
        assert(g.dom().contains(u));
        assert forall|w: u32| #[trigger] h[u].contains(w) implies h.dom().contains(w) && h[w].contains(u) by {
            if g[v].contains(u) {
                assert(g.dom().contains(w));
                if g[v].contains(w) {
                } else {
                    assert(g[u].contains(w));
                    assert(g[w].contains(u));
                    assert(w != v);
                }
            } else {
                assert(g[u].contains(w));
                assert(g[w].contains(u));
                if w == v { assert(g[v].contains(u)); }
                if g[v].contains(w) {
                    assert(u != w);
                }
            }
        }
    }
}

proof fn lemma_sorted_len(s: Seq<u32>)
    requires
        increasing(s),
    ensures
        s.len() == s.to_set().len(),
        s.no_duplicates(),
{
    lemma_increasing_no_dup(s);
    s.unique_seq_to_set();
}

/// Min-degree elimination ordering: repeatedly eliminate the lowest-degree
/// variable (ties: smallest id), connecting its neighbours (fill-in). The
/// width is the largest closed neighbourhood eliminated.
pub fn contraction_order(q: &Query) -> (c: Contraction)
    ensures
        min_degree_order(interaction(q.atoms@), c.order@),
        c.width == elim_width(interaction(q.atoms@), c.order@),
{
    broadcast use vstd::seq_lib::seq_to_set_is_finite;
    let mut adj = interaction_lists(q);
    let ghost g0 = interaction(q.atoms@);
    proof {
        lemma_interaction_ok(q.atoms@, adj@);
    }
    let mut alive = q.vars();
    let mut order: Vec<u32> = Vec::new();
    let mut width: usize = 0;
    assert(gview(adj@).dom() =~= adj@.dom());
    assert(g0.dom() =~= all_vars(q.atoms@));
    assert(alive@.to_set() =~= adj@.dom());
    while alive.len() > 0
        invariant
            lists_sorted(adj@),
            increasing(alive@),
            alive@.to_set() == adj@.dom(),
            gview(adj@) == elim_run(g0, order@),
            graph_ok(gview(adj@)),
            forall|i: int| 0 <= i < order@.len() ==> is_min_degree(#[trigger] elim_run(g0, order@.take(i)), order@[i]),
            width == elim_width(g0, order@),
        decreases alive@.len(),
    {
        let ghost cur = gview(adj@);
        let mut best: usize = 0;
        let mut best_d: usize = 0;
        let mut j: usize = 0;
        while j < alive.len()
            invariant
                j <= alive@.len(),
                alive@.len() > 0,
                alive@.to_set() == adj@.dom(),
                j > 0 ==> best < j,
                j > 0 ==> best_d == adj@[alive@[best as int]]@.len(),
                forall|j2: int| 0 <= j2 < j ==> best_d < (#[trigger] adj@[alive@[j2]])@.len()
                    || (best_d == adj@[alive@[j2]]@.len() && best <= j2),
            decreases alive@.len() - j,
        {
            assert(alive@.to_set().contains(alive@[j as int]));
            let d = adj.get(&alive[j]).unwrap().len();
            if j == 0 || d < best_d {
                best = j;
                best_d = d;
            }
            j = j + 1;
        }
        let v = alive[best];
        assert(alive@.to_set().contains(v));
        let nbrs = vstd::slice::slice_to_vec(adj.get(&v).unwrap().as_slice());
        let ghost nset = cur[v];
        proof {
            assert(nbrs@ == adj@[v]@);
            lemma_sorted_len(nbrs@);
            assert forall|w: u32| #[trigger] cur.dom().contains(w) implies cur[v].len() < cur[w].len() || (cur[v].len() == cur[w].len() && v <= w) by {
                lemma_sorted_len(adj@[w]@);
                assert(alive@.to_set().contains(w));
                let j2 = choose|j2: int| 0 <= j2 < alive@.len() && alive@[j2] == w;
                assert(best_d < adj@[alive@[j2]]@.len() || (best_d == adj@[alive@[j2]]@.len() && best <= j2));
                if best < j2 { assert(alive@[best as int] < alive@[j2]); }
            }
            assert(is_min_degree(cur, v));
            assert(nset.subset_of(alive@.to_set().remove(v)));
            lemma_sorted_len(alive@);
            vstd::set_lib::lemma_len_subset(nset, alive@.to_set().remove(v));
        }
        let bag = nbrs.len() + 1;
        if bag > width {
            width = bag;
        }
        let ghost adj0 = adj@;
        let mut t: usize = 0;
        while t < nbrs.len()
            invariant
                t <= nbrs@.len(),
                nbrs@.no_duplicates(),
                increasing(nbrs@),
                nbrs@.to_set() == nset,
                nset == cur[v],
                cur.dom().contains(v),
                graph_ok(cur),
                adj@.dom() == cur.dom(),
                lists_sorted(adj@),
                forall|u: u32| #[trigger] adj@.contains_key(u) ==> gview(adj@)[u] == (
                    if nbrs@.take(t as int).contains(u) { cur[u].union(nset).remove(u).remove(v) } else { cur[u] }),
            decreases nbrs@.len() - t,
        {
            let u = nbrs[t];
            proof {
                assert(nset.contains(u));
                assert(!nbrs@.take(t as int).contains(u)) by {
                    if nbrs@.take(t as int).contains(u) {
                        let k = choose|k: int| 0 <= k < t && nbrs@.take(t as int)[k] == u;
                        assert(nbrs@[k] == nbrs@[t as int]);
                    }
                }
                assert(adj@.contains_key(u));
            }
            let ghost cu = cur[u];
            let ghost adj1 = adj@;
            let mut l = adj.remove(&u).unwrap();
            assert(l@.to_set() == cu);
            let mut s2: usize = 0;
            while s2 < nbrs.len()
                invariant
                    s2 <= nbrs@.len(),
                    increasing(l@),
                    l@.to_set() == cu.union(nbrs@.take(s2 as int).to_set().remove(u)),
                decreases nbrs@.len() - s2,
            {
                let w = nbrs[s2];
                if w != u {
                    insert_sorted(&mut l, w);
                }
                proof {
                    assert(nbrs@.take(s2 + 1) =~= nbrs@.take(s2 as int).push(w));
                    crate::math::lemma_push_to_set(nbrs@.take(s2 as int), w);
                    assert(l@.to_set() =~= cu.union(nbrs@.take(s2 + 1).to_set().remove(u)));
                }
                s2 = s2 + 1;
            }
            remove_sorted(&mut l, v);
            proof {
                assert(nbrs@.take(nbrs@.len() as int) =~= nbrs@);
                assert(!cu.contains(u));
                assert(l@.to_set() =~= cu.union(nset).remove(u).remove(v));
            }
            adj.insert(u, l);
            proof {
                assert(adj@.dom() =~= cur.dom());
                assert(nbrs@.take(t + 1) =~= nbrs@.take(t as int).push(u));
                assert forall|x: u32| #[trigger] adj@.contains_key(x) implies gview(adj@)[x] == (
                    if nbrs@.take(t + 1).contains(x) { cur[x].union(nset).remove(x).remove(v) } else { cur[x] }) by {
                    assert(adj1.contains_key(x));
                    if x != u {
                        assert(nbrs@.take(t + 1).contains(x) == nbrs@.take(t as int).contains(x)) by {
                            let s1 = nbrs@.take(t + 1);
                            let s0 = nbrs@.take(t as int);
                            if s1.contains(x) {
                                let k = choose|k: int| 0 <= k < s1.len() && s1[k] == x;
                                assert(s0[k] == x);
                            }
                            if s0.contains(x) {
                                let k = choose|k: int| 0 <= k < s0.len() && s0[k] == x;
                                assert(s1[k] == x);
                            }
                        }
                    } else {
                        assert(nbrs@.take(t + 1)[t as int] == u);
                    }
                }
            }
            t = t + 1;
        }
        let ghost adj2 = adj@;
        adj.remove(&v);
        let ghost old_alive = alive@;
        let ghost old_order = order@;
        alive.remove(best);
        order.push(v);
        proof {
            assert(nbrs@.take(nbrs@.len() as int) =~= nbrs@);
            assert(!nset.contains(v));
            assert(gview(adj@) =~= elim_step(cur, v)) by {
                assert forall|x: u32| #[trigger] adj@.contains_key(x) implies gview(adj@)[x] == elim_step(cur, v)[x] by {
                    assert(adj2.contains_key(x));
                    assert(nbrs@.contains(x) == nset.contains(x));
                }
            }
            assert(order@.drop_last() =~= old_order);
            lemma_elim_ok(cur, v);
            assert forall|a: int, b: int| 0 <= a < b < alive@.len() implies alive@[a] < alive@[b] by {
                if a >= best { assert(alive@[a] == old_alive[a + 1]); } else { assert(alive@[a] == old_alive[a]); }
                if b >= best { assert(alive@[b] == old_alive[b + 1]); } else { assert(alive@[b] == old_alive[b]); }
            }
            assert forall|x: u32| alive@.contains(x) <==> (old_alive.contains(x) && x != v) by {
                if alive@.contains(x) {
                    let k = choose|k: int| 0 <= k < alive@.len() && alive@[k] == x;
                    if k < best { assert(old_alive[k] == x); assert(old_alive[k] < old_alive[best as int]); }
                    else { assert(old_alive[k + 1] == x); assert(old_alive[best as int] < old_alive[k + 1]); }
                }
                if old_alive.contains(x) && x != v {
                    let k = choose|k: int| 0 <= k < old_alive.len() && old_alive[k] == x;
                    if k < best { assert(alive@[k] == x); } else { assert(alive@[k - 1] == x); }
                }
            }
            assert(alive@.to_set() =~= adj@.dom());
            assert forall|i: int| 0 <= i < order@.len() implies is_min_degree(#[trigger] elim_run(g0, order@.take(i)), order@[i]) by {
                if i < old_order.len() {
                    assert(order@.take(i) =~= old_order.take(i));
                } else {
                    assert(order@.take(i) =~= old_order);
                }
            }
            assert(cur[v].len() == nbrs@.len());
        }
    }
    proof {
        assert(alive@.to_set() =~= Set::<u32>::empty());
        assert(gview(adj@).dom() =~= Set::<u32>::empty());
    }
    Contraction { order, width }
}

/// The vertices left after eliminating the first `i` of `order`.
proof fn lemma_elim_run_dom(g: Map<u32, Set<u32>>, order: Seq<u32>, i: int)
    requires
        0 <= i <= order.len(),
    ensures
        elim_run(g, order.take(i)).dom() == g.dom().difference(order.take(i).to_set()),
    decreases i,
{
    if i == 0 {
        assert(order.take(0).to_set() =~= Set::<u32>::empty());
        assert(g.dom().difference(Set::<u32>::empty()) =~= g.dom());
    } else {
        lemma_elim_run_dom(g, order, i - 1);
        let t = order.take(i);
        assert(t.drop_last() =~= order.take(i - 1));
        assert(t.to_set() =~= order.take(i - 1).to_set().insert(order[i - 1])) by {
            assert forall|x: u32| t.to_set().contains(x) <==> order.take(i - 1).to_set().insert(order[i - 1]).contains(x) by {
                if t.contains(x) {
                    let k = choose|k: int| 0 <= k < t.len() && t[k] == x;
                    if k < i - 1 { assert(order.take(i - 1)[k] == x); }
                }
                let p = order.take(i - 1);
                if p.contains(x) {
                    let k = choose|k: int| 0 <= k < p.len() && p[k] == x;
                    assert(t[k] == x);
                }
                if x == order[i - 1] { assert(t[i - 1] == x); }
            }
        }
        assert(elim_run(g, t).dom() =~= g.dom().difference(t.to_set()));
    }
}

/// A min-degree order eliminates every vertex exactly once.
pub proof fn lemma_order_covers(g: Map<u32, Set<u32>>, order: Seq<u32>)
    requires
        min_degree_order(g, order),
    ensures
        order.no_duplicates(),
        order.to_set() == g.dom(),
{
    assert forall|i: int| 0 <= i < order.len() implies g.dom().contains(order[i]) && !order.take(i).contains(order[i]) by {
        assert(is_min_degree(elim_run(g, order.take(i)), order[i]));
        lemma_elim_run_dom(g, order, i);
        assert(order.take(i).to_set().contains(order[i]) == order.take(i).contains(order[i]));
    }
    assert forall|a: int, b: int| 0 <= a < order.len() && 0 <= b < order.len() && a != b implies order[a] != order[b] by {
        if a < b {
            assert(!order.take(b).contains(order[b]));
            assert(order.take(b)[a] == order[a]);
        } else {
            assert(!order.take(a).contains(order[a]));
            assert(order.take(a)[b] == order[b]);
        }
    }
    lemma_elim_run_dom(g, order, order.len() as int);
    assert(order.take(order.len() as int) =~= order);
    assert forall|x: u32| order.to_set().contains(x) <==> g.dom().contains(x) by {
        if order.contains(x) {
            let k = choose|k: int| 0 <= k < order.len() && order[k] == x;
            assert(g.dom().contains(order[k]));
        }
        if g.dom().contains(x) && !order.to_set().contains(x) {
            assert(g.dom().difference(order.to_set()).contains(x));
        }
    }
    assert(order.to_set() =~= g.dom());
}

} // verus!
