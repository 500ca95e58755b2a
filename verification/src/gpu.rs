//! Execution engine. The device kernels are not part of this build (no CUDA
//! device or toolkit), so the device entry points report
//! [`GpuError::NotBuilt`]; the pure-CPU layers — the ASP simplification
//! filter, the WCOJ query planner with the binary-plan intermediate size it
//! avoids, the tensor-contraction planner and the partitioning interfaces —
//! are always present.
use vstd::prelude::*;
use crate::math::{sum, lemma_sum_mono};

pub mod asp;
pub mod contraction;
pub mod partition;
pub mod plan;

verus! {

/// Error from the device engine.
#[derive(Debug, Clone, PartialEq, Eq)]
pub enum GpuError {
    /// The engine was built without device support — no kernel is present.
    NotBuilt,
    /// A device driver / runtime-compiler error, stringified.
    Cuda(String),
}

impl GpuError {
    /// Human-readable message (the `Display` text).
    pub fn message(&self) -> (s: String)
        ensures
            self is NotBuilt ==> s@ == not_built_message(),
            self matches GpuError::Cuda(e) ==> s@ == seq!['C', 'U', 'D', 'A', ' ', 'e', 'r', 'r', 'o', 'r', ':', ' '] + e@,
    {
        match self {
            GpuError::NotBuilt => {
                let s = String::from_str("strata-gpu was built without the `cuda` feature (no GPU engine compiled in)");
                proof { reveal_strlit("strata-gpu was built without the `cuda` feature (no GPU engine compiled in)"); }
                s
            },
            GpuError::Cuda(e) => {
                let mut s = String::from_str("CUDA error: ");
                proof { reveal_strlit("CUDA error: "); }
                s.append(e.as_str());
                s
            },
        }
    }
}

/// The text reported for [`GpuError::NotBuilt`].
pub open spec fn not_built_message() -> Seq<char> {
    "strata-gpu was built without the `cuda` feature (no GPU engine compiled in)"@
}

/// Transitive closure of a Bool binary relation on the device. This build has
/// no device engine, so it reports [`GpuError::NotBuilt`].
pub fn transitive_closure_bool(edges: &[(u32, u32)]) -> (r: Result<Vec<(u32, u32)>, GpuError>)
    ensures
        r == Err::<Vec<(u32, u32)>, GpuError>(GpuError::NotBuilt),
{
    Err(GpuError::NotBuilt)
}

/// All-pairs shortest paths over the tropical semiring on the device; this
/// build reports [`GpuError::NotBuilt`].
pub fn shortest_paths_trop(edges: &[(u32, u32, i64)]) -> (r: Result<Vec<(u32, u32, i64)>, GpuError>)
    ensures
        r == Err::<Vec<(u32, u32, i64)>, GpuError>(GpuError::NotBuilt),
{
    Err(GpuError::NotBuilt)
}

/// Triangle count by a device worst-case-optimal join; this build reports
/// [`GpuError::NotBuilt`].
pub fn count_triangles(edges: &[(u32, u32)]) -> (r: Result<u64, GpuError>)
    ensures
        r == Err::<u64, GpuError>(GpuError::NotBuilt),
{
    Err(GpuError::NotBuilt)
}

/// 4-clique count by a device worst-case-optimal join; this build reports
/// [`GpuError::NotBuilt`].
pub fn count_4cliques(edges: &[(u32, u32)]) -> (r: Result<u64, GpuError>)
    ensures
        r == Err::<u64, GpuError>(GpuError::NotBuilt),
{
    Err(GpuError::NotBuilt)
}

/// Device-side term interning; this build reports [`GpuError::NotBuilt`].
pub fn intern_terms(keys: &[u64]) -> (r: Result<Vec<u32>, GpuError>)
    ensures
        r == Err::<Vec<u32>, GpuError>(GpuError::NotBuilt),
{
    Err(GpuError::NotBuilt)
}

/// The smaller endpoint of an undirected edge: its source once oriented.
pub open spec fn lo_end(p: (u32, u32)) -> u32 {
    if p.0 < p.1 { p.0 } else { p.1 }
}

/// The larger endpoint of an undirected edge: its target once oriented.
pub open spec fn hi_end(p: (u32, u32)) -> u32 {
    if p.0 < p.1 { p.1 } else { p.0 }
}

/// Row `i` is an edge of the simple oriented graph: not a self-loop, and the
/// first row with its oriented pair `(lo, hi)` (both directions and repeats of
/// one edge collapse to it).
pub open spec fn oriented_row(e: Seq<(u32, u32)>, i: int) -> bool {
    &&& e[i].0 != e[i].1
    &&& forall|q: int| 0 <= q < i ==> !(lo_end(#[trigger] e[q]) == lo_end(e[i]) && hi_end(e[q]) == hi_end(e[i]))
}

/// The forward degree `d⁺(u)`: the number of oriented edges leaving `u`.
pub open spec fn fwd_degree(e: Seq<(u32, u32)>, u: u32) -> int {
    sum(e.len(), |j: int| if oriented_row(e, j) && lo_end(e[j]) == u { 1int } else { 0int })
}

/// Row `i` is the first oriented edge leaving its source: each source node is
/// counted once, at this row.
pub open spec fn source_row(e: Seq<(u32, u32)>, i: int) -> bool {
    &&& oriented_row(e, i)
    &&& forall|q: int| 0 <= q < i ==> !(oriented_row(e, q) && lo_end(#[trigger] e[q]) == lo_end(e[i]))
}

/// `Σ_u d⁺(u)²` over the oriented, deduplicated, loop-free graph of `e`: the
/// number of two-paths `u → v, u → w` a binary join plan materializes.
pub open spec fn two_path_count(e: Seq<(u32, u32)>) -> int {
    sum(e.len(), |i: int| if source_row(e, i) { fwd_degree(e, lo_end(e[i])) * fwd_degree(e, lo_end(e[i])) } else { 0int })
}

/// Orients each edge from its smaller endpoint: `(lo, hi)`.
fn orient(p: (u32, u32)) -> (r: (u32, u32))
    ensures
        r == (lo_end(p), hi_end(p)),
{
    if p.0 < p.1 { p } else { (p.1, p.0) }
}

/// Marks the rows of `edges` that are edges of the oriented graph.
fn oriented_flags(edges: &[(u32, u32)]) -> (live: Vec<bool>)
    ensures
        live@.len() == edges@.len(),
        forall|i: int| 0 <= i < edges@.len() ==> #[trigger] live@[i] == oriented_row(edges@, i),
{
    let n = edges.len();
    let mut live: Vec<bool> = Vec::new();
    let mut i: usize = 0;
    while i < n
        invariant
            n == edges@.len(),
            i <= n,
            live@.len() == i,
            forall|x: int| 0 <= x < i ==> #[trigger] live@[x] == oriented_row(edges@, x),
        decreases n - i,
    {
        let oi = orient(edges[i]);
        let mut ok = edges[i].0 != edges[i].1;
        let mut q: usize = 0;
        while q < i
            invariant
                n == edges@.len(),
                i < n,
                q <= i,
                oi == (lo_end(edges@[i as int]), hi_end(edges@[i as int])),
                ok == (edges@[i as int].0 != edges@[i as int].1
                    && forall|r: int| 0 <= r < q ==> !(lo_end(#[trigger] edges@[r]) == lo_end(edges@[i as int]) && hi_end(edges@[r]) == hi_end(edges@[i as int]))),
            decreases i - q,
        {
            let oq = orient(edges[q]);
            if oq.0 == oi.0 && oq.1 == oi.1 {
                ok = false;
            }
            q = q + 1;
        }
        live.push(ok);
        i = i + 1;
    }
    live
}

/// Size of the binary-plan intermediate `edge ⋈ edge` of the triangle query:
/// `Σ_u d⁺(u)²` over the oriented graph (each undirected edge from its smaller
/// endpoint, self-loops dropped, repeats merged) — what a two-path
/// materialization would allocate and the worst-case-optimal join avoids.
pub fn binary_plan_intermediate(edges: &[(u32, u32)]) -> (r: u64)
    requires
        two_path_count(edges@) <= u64::MAX,
    ensures
        r == two_path_count(edges@),
{
    let ghost e = edges@;
    let n = edges.len();
    let live = oriented_flags(edges);
    let ghost f = |i: int| if source_row(e, i) { fwd_degree(e, lo_end(e[i])) * fwd_degree(e, lo_end(e[i])) } else { 0int };
    proof {
        assert forall|x: int| 0 <= x < n implies 0 <= #[trigger] f(x) by {
            let d = fwd_degree(e, lo_end(e[x]));
            assert(d * d >= 0) by (nonlinear_arith);
        }
    }
    let mut total: u64 = 0;
    let mut i: usize = 0;
    while i < n
        invariant
            n == edges@.len(),
            e == edges@,
            i <= n,
            live@.len() == n,
            forall|x: int| 0 <= x < n ==> #[trigger] live@[x] == oriented_row(e, x),
            f == (|i: int| if source_row(e, i) { fwd_degree(e, lo_end(e[i])) * fwd_degree(e, lo_end(e[i])) } else { 0int }),
            forall|x: int| 0 <= x < n ==> 0 <= #[trigger] f(x),
            sum(n as nat, f) <= u64::MAX,
            total == sum(i as nat, f),
        decreases n - i,
    {
        proof {
            lemma_sum_mono((i + 1) as nat, n as nat, f);
        }
        if live[i] {
            let u = orient(edges[i]).0;
            // first oriented edge leaving u?
            let mut lead = true;
            let mut q: usize = 0;
            while q < i
                invariant
                    n == edges@.len(),
                    e == edges@,
                    i < n,
                    q <= i,
                    live@.len() == n,
                    forall|x: int| 0 <= x < n ==> #[trigger] live@[x] == oriented_row(e, x),
                    u == lo_end(e[i as int]),
                    lead == forall|r: int| 0 <= r < q ==> !(oriented_row(e, r) && lo_end(#[trigger] e[r]) == u),
                decreases i - q,
            {
                if live[q] && orient(edges[q]).0 == u {
                    lead = false;
                }
                q = q + 1;
            }
            if lead {
                let ghost g = |j: int| if oriented_row(e, j) && lo_end(e[j]) == u { 1int } else { 0int };
                let mut d: u64 = 0;
                let mut j: usize = 0;
                while j < n
                    invariant
                        n == edges@.len(),
                        e == edges@,
                        j <= n,
                        live@.len() == n,
                        forall|x: int| 0 <= x < n ==> #[trigger] live@[x] == oriented_row(e, x),
                        g == (|j: int| if oriented_row(e, j) && lo_end(e[j]) == u { 1int } else { 0int }),
                        d == sum(j as nat, g),
                        d <= j,
                    decreases n - j,
                {
                    if live[j] && orient(edges[j]).0 == u {
                        d = d + 1;
                    }
                    j = j + 1;
                }
                proof {
                    assert(fwd_degree(e, u) == sum(n as nat, g));
                    assert(source_row(e, i as int));
                    assert(f(i as int) == d * d);
                    assert(total + d * d <= u64::MAX);
                }
                total = total + d * d;
            } else {
                proof {
                    assert(!source_row(e, i as int));
                }
            }
        }
        i = i + 1;
    }
    total
}

} // verus!
