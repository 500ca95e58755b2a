//! Recursion classification: which predicates depend on themselves through the
//! dependency graph.
use vstd::prelude::*;
use vstd::set_lib::{set_int_range, lemma_int_range, lemma_len_subset};
use crate::check::{edges_in, Edge};

verus! {

/// Some edge runs from `u` to `v`.
pub open spec fn is_edge(edges: Seq<Edge>, u: int, v: int) -> bool {
    exists|i: int| 0 <= i < edges.len() && (#[trigger] edges[i]).0 == u && edges[i].1 == v
}

/// `p` is a walk of at least one edge.
pub open spec fn is_walk(edges: Seq<Edge>, p: Seq<int>) -> bool {
    &&& p.len() >= 2
    &&& forall|i: int| 0 <= i < p.len() - 1 ==> is_edge(edges, #[trigger] p[i], p[i + 1])
}

/// `b` can be reached from `a` along at least one edge.
pub open spec fn reaches(edges: Seq<Edge>, a: int, b: int) -> bool {
    exists|p: Seq<int>| #[trigger] is_walk(edges, p) && p[0] == a && p.last() == b
}

/// Predicate `u` depends on itself: it sits on a cycle.
pub open spec fn recursive(edges: Seq<Edge>, u: int) -> bool {
    reaches(edges, u, u)
}

/// `adj[x]` lists exactly the successors of `x` along the first `k` edges.
spec fn adj_upto(adj: Seq<Vec<usize>>, edges: Seq<Edge>, k: int) -> bool {
    forall|x: int, v: usize| 0 <= x < adj.len() ==> (#[trigger] adj[x]@.contains(v)
        <==> exists|i: int| 0 <= i < k && (#[trigger] edges[i]).0 == x && edges[i].1 == v)
}

proof fn lemma_step(edges: Seq<Edge>, a: int, x: int, v: int)
    requires
        reaches(edges, a, x),
        is_edge(edges, x, v),
    ensures
        reaches(edges, a, v),
{
    let p = choose|p: Seq<int>| #[trigger] is_walk(edges, p) && p[0] == a && p.last() == x;
    let q = p.push(v);
    assert forall|i: int| 0 <= i < q.len() - 1 implies is_edge(edges, #[trigger] q[i], q[i + 1]) by {
        if i < p.len() - 1 {
            assert(q[i] == p[i] && q[i + 1] == p[i + 1]);
        } else {
            assert(q[i] == x && q[i + 1] == v);
        }
    }
    assert(is_walk(edges, q));
}

proof fn lemma_first(edges: Seq<Edge>, a: int, v: int)
    requires
        is_edge(edges, a, v),
    ensures
        reaches(edges, a, v),
{
    let q = seq![a, v];
    assert(is_edge(edges, q[0], q[1]));
    assert(is_walk(edges, q));
}

/// A set that holds the successors of `a` and is closed under successors holds
/// everything `a` reaches.
proof fn lemma_closed(edges: Seq<Edge>, a: int, s: Set<int>, b: int)
    requires
        reaches(edges, a, b),
        forall|v: int| is_edge(edges, a, v) ==> s.contains(v),
        forall|x: int, v: int| s.contains(x) && #[trigger] is_edge(edges, x, v) ==> s.contains(v),
    ensures
        s.contains(b),
{
    let p = choose|p: Seq<int>| #[trigger] is_walk(edges, p) && p[0] == a && p.last() == b;
    lemma_walk_in(edges, a, s, p, p.len() - 1);
}

proof fn lemma_walk_in(edges: Seq<Edge>, a: int, s: Set<int>, p: Seq<int>, i: int)
    requires
        is_walk(edges, p),
        p[0] == a,
        1 <= i < p.len(),
        forall|v: int| is_edge(edges, a, v) ==> s.contains(v),
        forall|x: int, v: int| s.contains(x) && #[trigger] is_edge(edges, x, v) ==> s.contains(v),
    ensures
        s.contains(p[i]),
    decreases i,
{
    assert(is_edge(edges, p[i - 1], p[i]));
    if i > 1 {
        lemma_walk_in(edges, a, s, p, i - 1);
    }
}

/// Every listed successor is a predicate below `n`.
spec fn targets_below(adj: Seq<Vec<usize>>, n: nat) -> bool {
    forall|x: int, j: int| 0 <= x < adj.len() && 0 <= j < adj[x]@.len() ==> (#[trigger] adj[x]@[j]) < n
}

/// The predicates that (transitively) depend on themselves, as one flag per
/// predicate.
pub fn recursive_preds(n: usize, edges: &[Edge]) -> (rec: Vec<bool>)
    requires
        edges_in(n as nat, edges@),
    ensures
        rec@.len() == n,
        forall|u: int| 0 <= u < n ==> rec@[u] == recursive(edges@, u),
{
    let adj = adjacency(n, edges);
    let mut rec: Vec<bool> = Vec::new();
    let mut start: usize = 0;
    while start < n
        invariant
            start <= n,
            adj@.len() == n,
            adj_upto(adj@, edges@, edges@.len() as int),
            targets_below(adj@, n as nat),
            rec@.len() == start,
            forall|u: int| 0 <= u < start ==> rec@[u] == recursive(edges@, u),
        decreases n - start,
    {
        let r = self_reaching(n, &adj, edges, start);
        rec.push(r);
        start = start + 1;
    }
    rec
}

/// The successor lists of the `n` predicates.
fn adjacency(n: usize, edges: &[Edge]) -> (adj: Vec<Vec<usize>>)
    requires
        edges_in(n as nat, edges@),
    ensures
        adj@.len() == n,
        adj_upto(adj@, edges@, edges@.len() as int),
        targets_below(adj@, n as nat),
{
    let mut adj: Vec<Vec<usize>> = Vec::new();
    let mut i: usize = 0;
    while i < n
        invariant
            i <= n,
            adj@.len() == i,
            forall|x: int| 0 <= x < i ==> (#[trigger] adj@[x])@.len() == 0,
        decreases n - i,
    {
        adj.push(Vec::new());
        i = i + 1;
    }
    let mut k: usize = 0;
    while k < edges.len()
        invariant
            k <= edges@.len(),
            edges_in(n as nat, edges@),
            adj@.len() == n,
            adj_upto(adj@, edges@, k as int),
            targets_below(adj@, n as nat),
        decreases edges@.len() - k,
    {
        let (u, v, _) = edges[k];
        assert(edges@[k as int].0 < n && edges@[k as int].1 < n);
        let ghost a0 = adj@;
        let mut row = adj.remove(u);
        row.push(v);
        adj.insert(u, row);
        proof {
            assert forall|x: int| 0 <= x < n && x != u implies adj@[x] == a0[x] by {
                if x < u {
                    assert(adj@[x] == a0[x]);
                } else {
                    assert(adj@[x] == a0[x]);
                }
            }
            assert(adj@[u as int]@ == a0[u as int]@.push(v));
            assert forall|x: int, w: usize| 0 <= x < adj@.len() implies (#[trigger] adj@[x]@.contains(w)
                <==> exists|i: int| 0 <= i < k + 1 && (#[trigger] edges@[i]).0 == x && edges@[i].1 == w) by {
                if x == u {
                    if adj@[x]@.contains(w) && w != v {
                        let j = choose|j: int| 0 <= j < adj@[x]@.len() && adj@[x]@[j] == w;
                        assert(j < a0[x]@.len());
                        assert(a0[x]@[j] == w);
                        assert(a0[x]@.contains(w));
                    }
                    if exists|i: int| 0 <= i < k + 1 && (#[trigger] edges@[i]).0 == x && edges@[i].1 == w {
                        let i = choose|i: int| 0 <= i < k + 1 && (#[trigger] edges@[i]).0 == x && edges@[i].1 == w;
                        if i < k {
                            assert(a0[x]@.contains(w));
                            let j = choose|j: int| 0 <= j < a0[x]@.len() && a0[x]@[j] == w;
                            assert(adj@[x]@[j] == a0[x]@[j]);
                        } else {
                            assert(adj@[x]@[a0[x]@.len() as int] == v);
                        }
                    }
                    if w == v {
                        assert(adj@[x]@[a0[x]@.len() as int] == v);
                    }
                } else {
                    assert(adj@[x] == a0[x]);
                }
            }
            assert forall|x: int, j: int| 0 <= x < adj@.len() && 0 <= j < adj@[x]@.len() implies (#[trigger] adj@[x]@[j]) < n by {
                if x != u {
                    assert(adj@[x] == a0[x]);
                } else if j < a0[x]@.len() {
                    assert(adj@[x]@[j] == a0[x]@[j]);
                }
            }
        }
        k = k + 1;
    }
    adj
}

/// Whether `start` reaches itself: a depth-first search from its successors.
fn self_reaching(n: usize, adj: &Vec<Vec<usize>>, edges: &[Edge], start: usize) -> (r: bool)
    requires
        start < n,
        adj@.len() == n,
        adj_upto(adj@, edges@, edges@.len() as int),
        targets_below(adj@, n as nat),
    ensures
        r == recursive(edges@, start as int),
{
    let ghost e = edges@;
    let mut seen: Vec<bool> = Vec::new();
    let mut i: usize = 0;
    while i < n
        invariant
            i <= n,
            seen@.len() == i,
            forall|x: int| 0 <= x < i ==> !(#[trigger] seen@[x]),
        decreases n - i,
    {
        seen.push(false);
        i = i + 1;
    }
    let mut stack: Vec<usize> = Vec::new();
    let mut j: usize = 0;
    let first = &adj[start];
    while j < first.len()
        invariant
            j <= first@.len(),
            *first == adj@[start as int],
            start < n,
            adj@.len() == n,
            targets_below(adj@, n as nat),
            stack@ == first@.take(j as int),
        decreases first@.len() - j,
    {
        stack.push(first[j]);
        j = j + 1;
        assert(stack@ =~= first@.take(j as int));
    }
    assert(first@.take(j as int) =~= first@);
    proof {
        assert forall|q: int| 0 <= q < stack@.len() implies reaches(e, start as int, #[trigger] stack@[q] as int) by {
            let v = stack@[q];
            assert(adj@[start as int]@.contains(v));
            let ii = choose|ii: int| 0 <= ii < e.len() && (#[trigger] e[ii]).0 == start as int && e[ii].1 == v as int;
            assert(is_edge(e, start as int, v as int));
            lemma_first(e, start as int, v as int);
        }
    }
    let ghost mut done: Set<int> = Set::empty();
    while stack.len() > 0
        invariant
            start < n,
            adj@.len() == n,
            e == edges@,
            adj_upto(adj@, e, e.len() as int),
            targets_below(adj@, n as nat),
            seen@.len() == n,
            done.subset_of(set_int_range(0, n as int)),
            forall|x: int| 0 <= x < n ==> (seen@[x] <==> #[trigger] done.contains(x)),
            !done.contains(start as int),
            forall|q: int| 0 <= q < stack@.len() ==> (#[trigger] stack@[q]) < n,
            forall|q: int| 0 <= q < stack@.len() ==> reaches(e, start as int, #[trigger] stack@[q] as int),
            forall|x: int| #[trigger] done.contains(x) ==> reaches(e, start as int, x),
            forall|q: int| 0 <= q < adj@[start as int]@.len() ==> done.contains(#[trigger] adj@[start as int]@[q] as int)
                || stack@.contains(adj@[start as int]@[q]),
            forall|x: int, q: int| #[trigger] done.contains(x) && 0 <= q < adj@[x]@.len() ==> done.contains(
                #[trigger] adj@[x]@[q] as int,
            ) || stack@.contains(adj@[x]@[q]),
        decreases n - done.len(), stack@.len(),
    {
        proof {
            lemma_int_range(0, n as int);
            lemma_len_subset(done, set_int_range(0, n as int));
        }
        let ghost s0 = stack@;
        let x = stack.pop().unwrap();
        assert(s0 == stack@.push(x));
        assert(x == s0[s0.len() - 1]);
        if x == start {
            assert(reaches(e, start as int, s0[s0.len() - 1] as int));
            return true;
        }
        proof {
            assert forall|y: usize| s0.contains(y) && y != x implies stack@.contains(y) by {
                let q = choose|q: int| 0 <= q < s0.len() && s0[q] == y;
                assert(stack@[q] == y);
            }
        }
        if !seen[x] {
            seen.set(x, true);
            let ghost d0 = done;
            proof {
                done = done.insert(x as int);
                assert(reaches(e, start as int, s0[s0.len() - 1] as int));
            }
            let row = &adj[x];
            let ghost s1 = stack@;
            let mut j: usize = 0;
            while j < row.len()
                invariant
                    j <= row@.len(),
                    *row == adj@[x as int],
                    x < n,
                    adj@.len() == n,
                    targets_below(adj@, n as nat),
                    stack@ == s1 + row@.take(j as int),
                decreases row@.len() - j,
            {
                stack.push(row[j]);
                j = j + 1;
                assert(stack@ =~= s1 + row@.take(j as int));
            }
            proof {
                assert(row@.take(j as int) =~= row@);
                assert forall|y: usize| s1.contains(y) implies stack@.contains(y) by {
                    let q = choose|q: int| 0 <= q < s1.len() && s1[q] == y;
                    assert(stack@[q] == y);
                }
                assert forall|q: int| 0 <= q < row@.len() implies stack@.contains(#[trigger] row@[q]) by {
                    assert(stack@[s1.len() + q] == row@[q]);
                }
                assert forall|q: int| 0 <= q < stack@.len() implies reaches(e, start as int, #[trigger] stack@[q] as int) by {
                    if q < s1.len() {
                        assert(stack@[q] == s1[q]);
                        assert(s0[q] == s1[q]);
                    } else {
                        let v = stack@[q];
                        assert(v == row@[q - s1.len()]);
                        assert(adj@[x as int]@.contains(v));
                        let ii = choose|ii: int| 0 <= ii < e.len() && (#[trigger] e[ii]).0 == x as int && e[ii].1 == v as int;
                        assert(is_edge(e, x as int, v as int));
                        lemma_step(e, start as int, x as int, v as int);
                    }
                }
                assert forall|y: int| 0 <= y < n implies (seen@[y] <==> #[trigger] done.contains(y)) by {
                    if y != x { assert(seen@[y] == d0.contains(y) || y == x); }
                }
                assert(done.subset_of(set_int_range(0, n as int)));
                lemma_int_range(0, n as int);
                lemma_len_subset(d0, set_int_range(0, n as int));
                assert(!d0.contains(x as int));
                assert(done.len() == d0.len() + 1);
                lemma_len_subset(done, set_int_range(0, n as int));
            }
        } else {
            proof {
                assert(done.contains(x as int));
            }
        }
    }
    proof {
        let s = done;
        assert forall|v: int| is_edge(e, start as int, v) implies s.contains(v) by {
            let ii = choose|ii: int| 0 <= ii < e.len() && (#[trigger] e[ii]).0 == start as int && e[ii].1 == v;
            let w = e[ii].1;
            assert(adj@[start as int]@.contains(w));
            let q = choose|q: int| 0 <= q < adj@[start as int]@.len() && adj@[start as int]@[q] == w;
            assert(done.contains(adj@[start as int]@[q] as int) || stack@.contains(adj@[start as int]@[q]));
        }
        assert forall|x: int, v: int| s.contains(x) && #[trigger] is_edge(e, x, v) implies s.contains(v) by {
            let ii = choose|ii: int| 0 <= ii < e.len() && (#[trigger] e[ii]).0 == x && e[ii].1 == v;
            assert(0 <= x < n);
            let w = e[ii].1;
            assert(adj@[x]@.contains(w));
            let q = choose|q: int| 0 <= q < adj@[x]@.len() && adj@[x]@[q] == w;
            assert(done.contains(adj@[x]@[q] as int) || stack@.contains(adj@[x]@[q]));
        }
        if recursive(e, start as int) {
            lemma_closed(e, start as int, s, start as int);
        }
    }
    false
}

} // verus!
