//! Static checks on a program's predicate dependency graph: stratification of
//! negation and the recursion classification, and the check diagnostic codes.
use vstd::prelude::*;
use vstd::set_lib::{set_int_range, lemma_int_range, lemma_len_subset};

pub mod asp_decls;
pub mod codes;
pub mod range;
pub mod strata;
pub mod program;
pub mod lower;
pub mod recursion;

verus! {

/// A dependency edge `(u, v, strict)`: `u` depends on `v`, through negation or
/// aggregation when `strict`.
pub type Edge = (usize, usize, bool);

/// The stratum gap an edge demands.
pub open spec fn gap(e: Edge) -> int {
    if e.2 { 1 } else { 0 }
}

/// Every edge mentions predicates below `n`.
pub open spec fn edges_in(n: nat, edges: Seq<Edge>) -> bool {
    forall|k: int| 0 <= k < edges.len() ==> (#[trigger] edges[k]).0 < n && edges[k].1 < n
}

/// `t` gives each of the `n` predicates a stratum `≥ 0` respecting every edge:
/// `t[u] ≥ t[v] (+1 if strict)`.
pub open spec fn respects(n: nat, edges: Seq<Edge>, t: Seq<int>) -> bool {
    &&& t.len() == n
    &&& forall|i: int| 0 <= i < n ==> #[trigger] t[i] >= 0
    &&& forall|k: int| 0 <= k < edges.len() ==> t[(#[trigger] edges[k]).0 as int] >= t[edges[k].1 as int] + gap(edges[k])
}

/// Some assignment of strata respects every edge (no strict edge on a cycle).
pub open spec fn stratifiable(n: nat, edges: Seq<Edge>) -> bool {
    exists|t: Seq<int>| respects(n, edges, t)
}

/// The values as integers.
pub open spec fn ints(s: Seq<u32>) -> Seq<int> {
    s.map_values(|x: u32| x as int)
}

/// Raise `s[u]` to `s[v] (+1)` if the edge demands it.
pub open spec fn relax_edge(s: Seq<int>, e: Edge) -> Seq<int> {
    if s[e.0 as int] < s[e.1 as int] + gap(e) { s.update(e.0 as int, s[e.1 as int] + gap(e)) } else { s }
}

/// One in-place pass over the first `k` edges, in order.
pub open spec fn pass_upto(s: Seq<int>, edges: Seq<Edge>, k: nat) -> Seq<int>
    decreases k,
{
    if k == 0 { s } else { relax_edge(pass_upto(s, edges, (k - 1) as nat), edges[k - 1]) }
}

/// The strata after `p` in-place passes from all zeros.
pub open spec fn passes(n: nat, edges: Seq<Edge>, p: nat) -> Seq<int>
    decreases p,
{
    if p == 0 { Seq::new(n, |i: int| 0int) } else { pass_upto(passes(n, edges, (p - 1) as nat), edges, edges.len()) }
}

/// Largest value of a nonempty prefix `s[..k]`.
pub open spec fn max_upto(s: Seq<int>, k: nat) -> int
    decreases k,
{
    if k <= 1 { s[0] } else {
        let m = max_upto(s, (k - 1) as nat);
        if s[k - 1] > m { s[k - 1] } else { m }
    }
}

/// The last index of `s[..k]` holding its largest value (0 when `k == 0`).
pub open spec fn last_argmax(s: Seq<int>, k: nat) -> int
    decreases k,
{
    if k <= 1 { 0 } else {
        let b = last_argmax(s, (k - 1) as nat);
        if s[k - 1] >= s[b] { k - 1 } else { b }
    }
}

// ---- the Jacobi iterates, used to bound the number of passes ---------------

/// The best relaxation of `u` from `w` over the first `k` edges.
#[verifier::opaque]
pub open spec fn relax_upto(w: Seq<int>, edges: Seq<Edge>, u: int, k: nat) -> int
    decreases k,
{
    if k == 0 {
        w[u]
    } else {
        let r = relax_upto(w, edges, u, (k - 1) as nat);
        let e = edges[k - 1];
        if e.0 == u && w[e.1 as int] + gap(e) > r { w[e.1 as int] + gap(e) } else { r }
    }
}

pub open spec fn jacobi(w: Seq<int>, edges: Seq<Edge>) -> Seq<int> {
    Seq::new(w.len(), |u: int| relax_upto(w, edges, u, edges.len()))
}

/// Longest strict-weight walk of at most `k` edges from each predicate.
#[verifier::opaque]
pub open spec fn walks(n: nat, edges: Seq<Edge>, k: nat) -> Seq<int>
    decreases k,
{
    if k == 0 { Seq::new(n, |i: int| 0int) } else { jacobi(walks(n, edges, (k - 1) as nat), edges) }
}

proof fn lemma_relax_upto(w: Seq<int>, edges: Seq<Edge>, u: int, k: nat)
    requires
        k <= edges.len(),
    ensures
        relax_upto(w, edges, u, k) >= w[u],
        forall|e: int| 0 <= e < k && (#[trigger] edges[e]).0 == u ==> relax_upto(w, edges, u, k) >= w[edges[e].1 as int] + gap(edges[e]),
        relax_upto(w, edges, u, k) == w[u] || exists|e: int| 0 <= e < k && (#[trigger] edges[e]).0 == u
            && relax_upto(w, edges, u, k) == w[edges[e].1 as int] + gap(edges[e]),
    decreases k,
{
    reveal(relax_upto);
    if k > 0 {
        lemma_relax_upto(w, edges, u, (k - 1) as nat);
    }
}

proof fn lemma_walks_len(n: nat, edges: Seq<Edge>, k: nat)
    ensures
        walks(n, edges, k).len() == n,
        k == 0 ==> forall|u: int| 0 <= u < n ==> #[trigger] walks(n, edges, k)[u] == 0,
        k >= 1 ==> forall|u: int| 0 <= u < n ==> #[trigger] walks(n, edges, k)[u]
            == relax_upto(walks(n, edges, (k - 1) as nat), edges, u, edges.len()),
    decreases k,
{
    reveal(walks);
    if k > 0 { lemma_walks_len(n, edges, (k - 1) as nat); }
}

proof fn lemma_walks_mono(n: nat, edges: Seq<Edge>, i: nat, j: nat)
    requires
        i <= j,
    ensures
        forall|u: int| 0 <= u < n ==> walks(n, edges, i)[u] <= #[trigger] walks(n, edges, j)[u],
    decreases j,
{
    if i < j {
        lemma_walks_mono(n, edges, i, (j - 1) as nat);
        lemma_walks_len(n, edges, (j - 1) as nat);
        lemma_walks_len(n, edges, j);
        assert forall|u: int| 0 <= u < n implies walks(n, edges, (j - 1) as nat)[u] <= #[trigger] walks(n, edges, j)[u] by {
            lemma_relax_upto(walks(n, edges, (j - 1) as nat), edges, u, edges.len());
        }
    }
}

/// Total gap along chain steps `b+1 ..= a`.
pub open spec fn chain_gap(edges: Seq<Edge>, es: Seq<int>, b: int, a: int) -> int
    decreases a - b,
{
    if a <= b { 0 } else { chain_gap(edges, es, b, a - 1) + gap(edges[es[a - 1]]) }
}

/// A predicate whose walk value still grows at step `k` starts a chain of
/// growing predicates `xs[k], xs[k-1], …, xs[0]` joined by edges.
proof fn lemma_chain(n: nat, edges: Seq<Edge>, k: nat, u: int) -> (r: (Seq<int>, Seq<int>))
    requires
        k >= 1,
        0 <= u < n,
        edges_in(n, edges),
        walks(n, edges, k)[u] > walks(n, edges, (k - 1) as nat)[u],
    ensures
        r.0.len() == k + 1,
        r.1.len() == k,
        r.0[k as int] == u,
        forall|j: int| 0 <= j <= k ==> 0 <= #[trigger] r.0[j] < n,
        forall|j: int| 1 <= j <= k ==> 0 <= #[trigger] r.1[j - 1] < edges.len()
            && edges[r.1[j - 1]].0 == r.0[j] && edges[r.1[j - 1]].1 == r.0[j - 1],
        forall|j: int| 1 <= j <= k ==> {
            let e = edges[r.1[j - 1]];
            &&& 0 <= r.1[j - 1] < edges.len()
            &&& e.0 == r.0[j] && e.1 == r.0[j - 1]
            &&& walks(n, edges, j as nat)[r.0[j]] == walks(n, edges, (j - 1) as nat)[r.0[j - 1]] + gap(e)
            &&& #[trigger] walks(n, edges, j as nat)[r.0[j]] > walks(n, edges, (j - 1) as nat)[r.0[j]]
        },
    decreases k,
{
    let wp = walks(n, edges, (k - 1) as nat);
    lemma_walks_len(n, edges, (k - 1) as nat);
    lemma_walks_len(n, edges, k);
    lemma_relax_upto(wp, edges, u, edges.len());
    let e = choose|e: int| 0 <= e < edges.len() && (#[trigger] edges[e]).0 == u
        && relax_upto(wp, edges, u, edges.len()) == wp[edges[e].1 as int] + gap(edges[e]);
    let v = edges[e].1 as int;
    if k == 1 {
        (seq![v, u], seq![e])
    } else {
        let wpp = walks(n, edges, (k - 2) as nat);
        lemma_walks_len(n, edges, (k - 2) as nat);
        lemma_relax_upto(wpp, edges, u, edges.len());
        assert(wp[u] >= wpp[v] + gap(edges[e]));
        let (xs, es) = lemma_chain(n, edges, (k - 1) as nat, v);
        let xs2 = xs.push(u);
        let es2 = es.push(e);
        assert forall|j: int| 1 <= j <= k implies 0 <= #[trigger] es2[j - 1] < edges.len()
            && edges[es2[j - 1]].0 == xs2[j] && edges[es2[j - 1]].1 == xs2[j - 1] by {
            if j < k {
                assert(xs2[j] == xs[j] && xs2[j - 1] == xs[j - 1] && es2[j - 1] == es[j - 1]);
            }
        }
        assert forall|j: int| 0 <= j <= k implies 0 <= #[trigger] xs2[j] < n by {
            if j < k { assert(xs2[j] == xs[j]); }
        }
        assert forall|j: int| 1 <= j <= k implies {
            let ee = edges[es2[j - 1]];
            &&& 0 <= es2[j - 1] < edges.len()
            &&& ee.0 == xs2[j] && ee.1 == xs2[j - 1]
            &&& walks(n, edges, j as nat)[xs2[j]] == walks(n, edges, (j - 1) as nat)[xs2[j - 1]] + gap(ee)
            &&& #[trigger] walks(n, edges, j as nat)[xs2[j]] > walks(n, edges, (j - 1) as nat)[xs2[j]]
        } by {
            if j < k {
                assert(xs2[j] == xs[j] && xs2[j - 1] == xs[j - 1] && es2[j - 1] == es[j - 1]);
            }
        }
        (xs2, es2)
    }
}

proof fn lemma_chain_walks(n: nat, edges: Seq<Edge>, xs: Seq<int>, es: Seq<int>, b: int, a: int)
    requires
        0 <= b <= a < xs.len(),
        es.len() + 1 == xs.len(),
        forall|j: int| 1 <= j < xs.len() ==>
            #[trigger] walks(n, edges, j as nat)[xs[j]] == walks(n, edges, (j - 1) as nat)[xs[j - 1]] + gap(edges[es[j - 1]]),
    ensures
        walks(n, edges, a as nat)[xs[a]] == walks(n, edges, b as nat)[xs[b]] + chain_gap(edges, es, b, a),
    decreases a - b,
{
    if b < a {
        lemma_chain_walks(n, edges, xs, es, b, a - 1);
        assert(walks(n, edges, a as nat)[xs[a]] == walks(n, edges, (a - 1) as nat)[xs[a - 1]] + gap(edges[es[a - 1]]));
    }
}

proof fn lemma_chain_respects(n: nat, edges: Seq<Edge>, t: Seq<int>, xs: Seq<int>, es: Seq<int>, b: int, a: int)
    requires
        respects(n, edges, t),
        0 <= b <= a < xs.len(),
        es.len() + 1 == xs.len(),
        forall|j: int| 1 <= j < xs.len() ==> 0 <= #[trigger] es[j - 1] < edges.len()
            && edges[es[j - 1]].0 == xs[j] && edges[es[j - 1]].1 == xs[j - 1],
    ensures
        t[xs[a]] >= t[xs[b]] + chain_gap(edges, es, b, a),
    decreases a - b,
{
    if b < a {
        lemma_chain_respects(n, edges, t, xs, es, b, a - 1);
        let k = es[a - 1];
        assert(0 <= k < edges.len());
        assert(t[edges[k].0 as int] >= t[edges[k].1 as int] + gap(edges[k]));
    }
}

/// `n + 1` values below `n` repeat one.
proof fn lemma_pigeonhole(xs: Seq<int>, n: nat)
    requires
        xs.len() == n + 1,
        forall|j: int| 0 <= j < xs.len() ==> 0 <= #[trigger] xs[j] < n,
    ensures
        exists|b: int, a: int| 0 <= b < a < xs.len() && xs[a] == xs[b],
{
    if !(exists|b: int, a: int| 0 <= b < a < xs.len() && xs[a] == xs[b]) {
        assert(xs.no_duplicates()) by {
            assert forall|i: int, j: int| 0 <= i < xs.len() && 0 <= j < xs.len() && i != j implies xs[i] != xs[j] by {
                if i < j { assert(!(xs[j] == xs[i])); } else { assert(!(xs[i] == xs[j])); }
            }
        }
        xs.unique_seq_to_set();
        lemma_int_range(0, n as int);
        assert(xs.to_set().subset_of(set_int_range(0, n as int)));
        lemma_len_subset(xs.to_set(), set_int_range(0, n as int));
    }
}

/// When some assignment respects every edge, walks of `n - 1` edges already
/// give the longest values: one more step changes nothing.
proof fn lemma_walks_settle(n: nat, edges: Seq<Edge>)
    requires
        n >= 1,
        edges_in(n, edges),
        stratifiable(n, edges),
    ensures
        walks(n, edges, n) == walks(n, edges, (n - 1) as nat),
{
    let t = choose|t: Seq<int>| respects(n, edges, t);
    lemma_walks_len(n, edges, n);
    lemma_walks_len(n, edges, (n - 1) as nat);
    lemma_walks_mono(n, edges, (n - 1) as nat, n);
    assert forall|u: int| 0 <= u < n implies walks(n, edges, n)[u] == walks(n, edges, (n - 1) as nat)[u] by {
        if walks(n, edges, n)[u] > walks(n, edges, (n - 1) as nat)[u] {
            let (xs, es) = lemma_chain(n, edges, n, u);
            lemma_pigeonhole(xs, n);
            let (b, a) = choose|b: int, a: int| 0 <= b < a < xs.len() && xs[a] == xs[b];
            lemma_chain_walks(n, edges, xs, es, b, a);
            lemma_chain_respects(n, edges, t, xs, es, b, a);
            lemma_walks_mono(n, edges, b as nat, (a - 1) as nat);
            assert(walks(n, edges, a as nat)[xs[a]] > walks(n, edges, (a - 1) as nat)[xs[a]]);
        }
    }
    assert(walks(n, edges, n) =~= walks(n, edges, (n - 1) as nat));
}


// ---- the in-place passes ---------------------------------------------------

proof fn lemma_pass_step(s: Seq<int>, edges: Seq<Edge>, n: nat, k: nat)
    requires
        s.len() == n,
        edges_in(n, edges),
        k < edges.len(),
    ensures
        pass_upto(s, edges, k + 1).len() == n,
        forall|i: int| 0 <= i < n ==> pass_upto(s, edges, k)[i] <= #[trigger] pass_upto(s, edges, k + 1)[i],
        pass_upto(s, edges, k + 1)[edges[k as int].0 as int] >= pass_upto(s, edges, k)[edges[k as int].1 as int] + gap(edges[k as int]),
    decreases k,
{
    lemma_pass_len(s, edges, n, k);
}

proof fn lemma_pass_len(s: Seq<int>, edges: Seq<Edge>, n: nat, k: nat)
    requires
        s.len() == n,
        edges_in(n, edges),
        k <= edges.len(),
    ensures
        pass_upto(s, edges, k).len() == n,
    decreases k,
{
    if k > 0 { lemma_pass_len(s, edges, n, (k - 1) as nat); }
}

proof fn lemma_pass_mono(s: Seq<int>, edges: Seq<Edge>, n: nat, i: nat, j: nat)
    requires
        s.len() == n,
        edges_in(n, edges),
        i <= j <= edges.len(),
    ensures
        forall|u: int| 0 <= u < n ==> pass_upto(s, edges, i)[u] <= #[trigger] pass_upto(s, edges, j)[u],
    decreases j,
{
    if i < j {
        lemma_pass_mono(s, edges, n, i, (j - 1) as nat);
        lemma_pass_step(s, edges, n, (j - 1) as nat);
    }
}

/// A pass from values at least `w` ends at least at the Jacobi step of `w`.
proof fn lemma_pass_dominates(s: Seq<int>, w: Seq<int>, edges: Seq<Edge>, n: nat)
    requires
        s.len() == n,
        w.len() == n,
        edges_in(n, edges),
        forall|u: int| 0 <= u < n ==> w[u] <= #[trigger] s[u],
    ensures
        forall|u: int| 0 <= u < n ==> jacobi(w, edges)[u] <= #[trigger] pass_upto(s, edges, edges.len())[u],
{
    let m = edges.len();
    lemma_pass_mono(s, edges, n, 0, m);
    assert forall|u: int| 0 <= u < n implies jacobi(w, edges)[u] <= #[trigger] pass_upto(s, edges, m)[u] by {
        lemma_relax_upto(w, edges, u, m);
        if relax_upto(w, edges, u, m) != w[u] {
            let e = choose|e: int| 0 <= e < m && (#[trigger] edges[e]).0 == u
                && relax_upto(w, edges, u, m) == w[edges[e].1 as int] + gap(edges[e]);
            lemma_pass_step(s, edges, n, e as nat);
            lemma_pass_mono(s, edges, n, 0, e as nat);
            lemma_pass_mono(s, edges, n, (e + 1) as nat, m);
        }
    }
}

/// Passes stay below every respecting assignment.
proof fn lemma_pass_below(s: Seq<int>, t: Seq<int>, edges: Seq<Edge>, n: nat, k: nat)
    requires
        s.len() == n,
        edges_in(n, edges),
        respects(n, edges, t),
        k <= edges.len(),
        forall|u: int| 0 <= u < n ==> #[trigger] s[u] <= t[u],
    ensures
        forall|u: int| 0 <= u < n ==> #[trigger] pass_upto(s, edges, k)[u] <= t[u],
    decreases k,
{
    if k > 0 {
        lemma_pass_below(s, t, edges, n, (k - 1) as nat);
        lemma_pass_len(s, edges, n, (k - 1) as nat);
        let e = edges[k - 1];
        assert(t[e.0 as int] >= t[e.1 as int] + gap(e));
    }
}

proof fn lemma_passes(n: nat, edges: Seq<Edge>, p: nat)
    requires
        edges_in(n, edges),
    ensures
        passes(n, edges, p).len() == n,
        forall|u: int| 0 <= u < n ==> walks(n, edges, p)[u] <= #[trigger] passes(n, edges, p)[u],
        forall|t: Seq<int>, u: int| #![trigger respects(n, edges, t), passes(n, edges, p)[u]]
            respects(n, edges, t) && 0 <= u < n ==> passes(n, edges, p)[u] <= t[u],
    decreases p,
{
    lemma_walks_len(n, edges, p);
    if p > 0 {
        lemma_passes(n, edges, (p - 1) as nat);
        lemma_walks_len(n, edges, (p - 1) as nat);
        lemma_pass_len(passes(n, edges, (p - 1) as nat), edges, n, edges.len());
        lemma_pass_dominates(passes(n, edges, (p - 1) as nat), walks(n, edges, (p - 1) as nat), edges, n);
        assert forall|u: int| 0 <= u < n implies walks(n, edges, p)[u] <= #[trigger] passes(n, edges, p)[u] by {
            assert(walks(n, edges, p)[u] == jacobi(walks(n, edges, (p - 1) as nat), edges)[u]);
        }
        assert forall|t: Seq<int>, u: int| #![trigger respects(n, edges, t), passes(n, edges, p)[u]]
            respects(n, edges, t) && 0 <= u < n implies passes(n, edges, p)[u] <= t[u] by {
            lemma_pass_below(passes(n, edges, (p - 1) as nat), t, edges, n, edges.len());
        }
    }
}

/// Later passes only raise strata.
proof fn lemma_passes_grow(n: nat, edges: Seq<Edge>, p: nat, r: nat)
    requires
        p <= r,
        edges_in(n, edges),
    ensures
        forall|u: int| 0 <= u < n ==> passes(n, edges, p)[u] <= #[trigger] passes(n, edges, r)[u],
    decreases r,
{
    if p < r {
        lemma_passes_grow(n, edges, p, (r - 1) as nat);
        lemma_passes(n, edges, (r - 1) as nat);
        let prev = passes(n, edges, (r - 1) as nat);
        lemma_pass_mono(prev, edges, n, 0, edges.len());
        assert(pass_upto(prev, edges, 0) == prev);
    }
}

/// A pass from values at most `b` raises no stratum past `b` plus the number
/// of edges relaxed.
proof fn lemma_pass_bound(s: Seq<int>, edges: Seq<Edge>, n: nat, k: nat, b: int)
    requires
        s.len() == n,
        edges_in(n, edges),
        k <= edges.len(),
        forall|u: int| 0 <= u < n ==> #[trigger] s[u] <= b,
    ensures
        forall|u: int| 0 <= u < n ==> #[trigger] pass_upto(s, edges, k)[u] <= b + k,
    decreases k,
{
    if k > 0 {
        lemma_pass_bound(s, edges, n, (k - 1) as nat, b);
        lemma_pass_len(s, edges, n, (k - 1) as nat);
        let prev = pass_upto(s, edges, (k - 1) as nat);
        let e = edges[k - 1];
        assert(e.1 < n);
        assert forall|u: int| 0 <= u < n implies #[trigger] pass_upto(s, edges, k)[u] <= b + k by {
            assert(pass_upto(s, edges, k) == relax_edge(prev, e));
            assert(prev[e.1 as int] <= b + k - 1);
        }
    }
}

/// After `p` passes no stratum exceeds `p` times the number of edges.
pub proof fn lemma_passes_bounded(n: nat, edges: Seq<Edge>, p: nat)
    requires
        edges_in(n, edges),
    ensures
        forall|u: int| 0 <= u < n ==> #[trigger] passes(n, edges, p)[u] <= p * edges.len(),
    decreases p,
{
    if p > 0 {
        lemma_passes_bounded(n, edges, (p - 1) as nat);
        lemma_passes(n, edges, (p - 1) as nat);
        let m = edges.len();
        assert((p - 1) * m + m == p * m) by (nonlinear_arith);
        lemma_pass_bound(passes(n, edges, (p - 1) as nat), edges, n, m, (p - 1) * m);
    }
}

/// `stratify`'s bound on plain values: with `(n + 1) · |edges| < u32::MAX`
/// every stratum the passes reach fits below `u32::MAX`.
pub proof fn lemma_stratify_fits(n: nat, edges: Seq<Edge>)
    requires
        edges_in(n, edges),
        (n + 1) * edges.len() < u32::MAX,
    ensures
        forall|u: int| 0 <= u < n ==> #[trigger] passes(n, edges, (n + 1) as nat)[u] < u32::MAX,
{
    lemma_passes_bounded(n, edges, (n + 1) as nat);
}

/// For a stratifiable graph the passes from zero reach a respecting
/// assignment by pass `n - 1`.
proof fn lemma_passes_settle(n: nat, edges: Seq<Edge>)
    requires
        n >= 1,
        edges_in(n, edges),
        stratifiable(n, edges),
    ensures
        respects(n, edges, passes(n, edges, (n - 1) as nat)),
{
    let p = (n - 1) as nat;
    lemma_walks_settle(n, edges);
    lemma_passes(n, edges, p);
    lemma_walks_len(n, edges, p);
    lemma_walks_len(n, edges, n);
    lemma_walks_mono(n, edges, 0, p);
    lemma_walks_len(n, edges, 0);
    let w = walks(n, edges, p);
    assert(respects(n, edges, w)) by {
        assert forall|k: int| 0 <= k < edges.len() implies w[(#[trigger] edges[k]).0 as int] >= w[edges[k].1 as int] + gap(edges[k]) by {
            lemma_relax_upto(w, edges, edges[k].0 as int, edges.len());
            assert(walks(n, edges, n)[edges[k].0 as int] == relax_upto(w, edges, edges[k].0 as int, edges.len()));
        }
        assert forall|i: int| 0 <= i < n implies #[trigger] w[i] >= 0 by {
            assert(walks(n, edges, 0)[i] == 0);
        }
    }
    assert(passes(n, edges, p) =~= w);
}

fn gap_exec(strict: bool) -> (g: u32)
    ensures
        g == gap((0, 0, strict)),
{
    if strict { 1 } else { 0 }
}

/// Iterative stratification. `stratum[u]` grows to satisfy every edge
/// `u → v (strict)`: `stratum[u] ≥ stratum[v] (+1 if strict)`. Converges within
/// `n` passes for a stratifiable program; if a strict edge sits on a cycle the
/// values grow without bound and the worst offender is reported. Returns
/// `(stratum, num_strata)` — the least respecting assignment — or
/// `Err(bad_node)`.
pub fn stratify(n: usize, edges: &[(usize, usize, bool)]) -> (r: Result<(Vec<u32>, u32), usize>)
    requires
        n < usize::MAX,
        edges_in(n as nat, edges@),
        forall|u: int| 0 <= u < n ==> #[trigger] passes(n as nat, edges@, (n + 1) as nat)[u] < u32::MAX,
    ensures
        (r is Ok) == stratifiable(n as nat, edges@),
        r matches Ok((s, num)) ==> {
            &&& respects(n as nat, edges@, ints(s@))
            &&& forall|t: Seq<int>, u: int| #![trigger respects(n as nat, edges@, t), s@[u]]
                respects(n as nat, edges@, t) && 0 <= u < n ==> s@[u] <= t[u]
            &&& num == if n == 0 { 1 } else { max_upto(ints(s@), n as nat) + 1 }
        },
        r matches Err(bad) ==> bad == last_argmax(passes(n as nat, edges@, (n + 1) as nat), n as nat),
{
    let m = edges.len();
    let ghost es = edges@;
    let mut s: Vec<u32> = Vec::new();
    let mut i: usize = 0;
    while i < n
        invariant
            i <= n,
            s@.len() == i,
            forall|k: int| 0 <= k < i ==> s@[k] == 0,
        decreases n - i,
    {
        s.push(0);
        i = i + 1;
    }
    assert(ints(s@) =~= passes(n as nat, es, 0));
    let mut pass: usize = 0;
    while pass <= n
        invariant
            pass <= n + 1,
            n < usize::MAX,
            m == es.len(),
            es == edges@,
            edges_in(n as nat, es),
            forall|u: int| 0 <= u < n ==> #[trigger] passes(n as nat, es, (n + 1) as nat)[u] < u32::MAX,
            s@.len() == n,
            ints(s@) == passes(n as nat, es, pass as nat),
            n >= 1 && pass > n - 1 ==> !stratifiable(n as nat, es),
            n == 0 ==> pass == 0,
            m == 0 ==> pass == 0,
        decreases n + 1 - pass,
    {
        let ghost start = ints(s@);
        let ghost fin_pass = passes(n as nat, es, (pass + 1) as nat);
        proof {
            lemma_passes(n as nat, es, pass as nat);
            lemma_passes(n as nat, es, (pass + 1) as nat);
            lemma_passes_grow(n as nat, es, (pass + 1) as nat, (n + 1) as nat);
            lemma_passes_grow(n as nat, es, pass as nat, (pass + 1) as nat);
            if n == 0 {
                if es.len() > 0 { assert(es[0].0 < 0); }
            }
            assert forall|q: int| 0 <= q < n implies #[trigger] fin_pass[q] < u32::MAX by {
                assert(passes(n as nat, es, (n + 1) as nat)[q] < u32::MAX);
            }
            assert forall|q: int| 0 <= q < n implies s@[q] <= #[trigger] fin_pass[q] by {
                assert(ints(s@)[q] == s@[q]);
            }
        }
        let mut changed = false;
        let mut k: usize = 0;
        while k < m
            invariant
                k <= m,
                m == es.len(),
                es == edges@,
                edges_in(n as nat, es),
                s@.len() == n,
                start.len() == n,
                ints(s@) == pass_upto(start, es, k as nat),
                start == passes(n as nat, es, pass as nat),
                fin_pass == pass_upto(start, es, m as nat),
                forall|q: int| 0 <= q < n ==> s@[q] <= #[trigger] fin_pass[q],
                forall|q: int| 0 <= q < n ==> #[trigger] fin_pass[q] < u32::MAX,
                !changed ==> ints(s@) == start,
                !changed ==> forall|q: int| 0 <= q < k ==> start[(#[trigger] es[q]).0 as int] >= start[es[q].1 as int] + gap(es[q]),
                changed ==> k > 0,
                respects(n as nat, es, start) ==> !changed,
            decreases m - k,
        {
            let (u, v, strict) = edges[k];
            assert(es[k as int] == (u, v, strict));
            proof {
                lemma_pass_step(start, es, n as nat, k as nat);
                lemma_pass_mono(start, es, n as nat, (k + 1) as nat, m as nat);
                assert(s@[v as int] <= fin_pass[v as int]);
            }
            let want = s[v] + gap_exec(strict);
            if s[u] < want {
                s.set(u, want);
                changed = true;
            }
            proof {
                assert(ints(s@) =~= pass_upto(start, es, (k + 1) as nat));
                assert forall|q: int| 0 <= q < n implies s@[q] <= #[trigger] fin_pass[q] by {
                    assert(ints(s@)[q] == pass_upto(start, es, (k + 1) as nat)[q]);
                }
            }
            k = k + 1;
        }
        if !changed {
            assert forall|q: int| 0 <= q < n implies s@[q] < u32::MAX by {
                assert(s@[q] <= fin_pass[q]);
            }
            let mut num: u32 = 0;
            let mut j: usize = 0;
            while j < n
                invariant
                    j <= n,
                    s@.len() == n,
                    j >= 1 ==> num == max_upto(ints(s@), j as nat),
                    j == 0 ==> num == 0,
                    forall|q: int| 0 <= q < n ==> s@[q] < u32::MAX,
                    num < u32::MAX,
                decreases n - j,
            {
                if j == 0 || s[j] > num {
                    num = s[j];
                }
                j = j + 1;
            }
            proof {
                assert(respects(n as nat, es, ints(s@))) by {
                    assert forall|q: int| 0 <= q < es.len() implies ints(s@)[(#[trigger] es[q]).0 as int] >= ints(s@)[es[q].1 as int] + gap(es[q]) by {}
                }
                assert forall|t: Seq<int>, u: int| #![trigger respects(n as nat, es, t), s@[u]]
                    respects(n as nat, es, t) && 0 <= u < n implies s@[u] <= t[u] by {
                    assert(ints(s@)[u] == passes(n as nat, es, pass as nat)[u]);
                }
            }
            return Ok((s, num + 1));
        }
        proof {
            if n >= 1 && pass == n - 1 && stratifiable(n as nat, es) {
                lemma_passes_settle(n as nat, es);
                assert(!changed);
            }
            assert(ints(s@) == passes(n as nat, es, (pass + 1) as nat));
        }
        pass = pass + 1;
    }
    assert(n >= 1);
    assert(pass == n + 1);
    assert(!stratifiable(n as nat, es));
    let ghost fin = ints(s@);
    assert(fin == passes(n as nat, es, (n + 1) as nat));
    let mut bad: usize = 0;
    let mut j: usize = 1;
    while j < n
        invariant
            1 <= j,
            j <= n || n == 0,
            s@.len() == n,
            bad < j,
            n >= 1,
            fin == ints(s@),
            bad == last_argmax(fin, j as nat),
        decreases n - j,
    {
        if s[j] >= s[bad] {
            bad = j;
        }
        j = j + 1;
    }
    Err(bad)
}

} // verus!
