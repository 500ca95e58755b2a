//! Counting a query's satisfying assignments by tensor contraction: each atom
//! is a factor (a count per tuple), and the variables are summed out one at a
//! time along the elimination order, multiplying the factors that mention the
//! variable. The count equals the nested-loop join count.
use vstd::prelude::*;
use crate::gpu::plan::{Atom, Query, all_vars, increasing, insert_sorted};

verus! {

/// An assignment of values to variables.
pub type Assign = Map<u32, i64>;

/// `Σ_{x ∈ dom} f(x)`.
pub open spec fn dsum(dom: Seq<i64>, f: spec_fn(i64) -> nat) -> nat
    decreases dom.len(),
{
    if dom.len() == 0 { 0 } else { dsum(dom.drop_last(), f) + f(dom.last()) }
}

/// The sum of `leaf` over every assignment of the variables `vs` (each ranging
/// over `dom`) extending `th`.
pub open spec fn tot(vs: Seq<u32>, dom: Seq<i64>, th: Assign, leaf: spec_fn(Assign) -> nat) -> nat
    decreases vs.len(), 1int,
{
    if vs.len() == 0 {
        leaf(th)
    } else {
        dsum(dom, tot_at(vs, dom, th, leaf))
    }
}

/// The summand of `tot` for the first variable: the rest summed with it set to `x`.
pub open spec fn tot_at(vs: Seq<u32>, dom: Seq<i64>, th: Assign, leaf: spec_fn(Assign) -> nat) -> spec_fn(i64) -> nat
    decreases vs.len(), 0int,
{
    |x: i64| if vs.len() > 0 { tot(vs.drop_first(), dom, th.insert(vs[0], x), leaf) } else { 0 }
}

/// The summand after pulling variable `vs[k]` out front.
pub open spec fn pulled(vs: Seq<u32>, k: int, dom: Seq<i64>, th: Assign, leaf: spec_fn(Assign) -> nat) -> spec_fn(i64) -> nat {
    |x: i64| tot(vs.remove(k), dom, th.insert(vs[k], x), leaf)
}

/// Row `x` of a grid.
pub open spec fn slice(h: spec_fn(i64, i64) -> nat, x: i64) -> spec_fn(i64) -> nat {
    |y: i64| h(x, y)
}

/// Column `y` of a grid.
pub open spec fn tslice(h: spec_fn(i64, i64) -> nat, y: i64) -> spec_fn(i64) -> nat {
    |x: i64| h(x, y)
}

/// The row sums of a grid.
pub open spec fn row_sum(d2: Seq<i64>, h: spec_fn(i64, i64) -> nat) -> spec_fn(i64) -> nat {
    |x: i64| dsum(d2, slice(h, x))
}

/// The column sums of a grid.
pub open spec fn col_sum(d1: Seq<i64>, h: spec_fn(i64, i64) -> nat) -> spec_fn(i64) -> nat {
    |y: i64| dsum(d1, tslice(h, y))
}

/// The modulus of `u64` arithmetic.
pub open spec fn word() -> nat {
    0x1_0000_0000_0000_0000
}

proof fn lemma_dsum_ext(dom: Seq<i64>, f: spec_fn(i64) -> nat, g: spec_fn(i64) -> nat)
    requires
        forall|x: i64| dom.contains(x) ==> #[trigger] f(x) == g(x),
    ensures
        dsum(dom, f) == dsum(dom, g),
    decreases dom.len(),
{
    if dom.len() > 0 {
        let d = dom.drop_last();
        assert forall|x: i64| d.contains(x) implies #[trigger] f(x) == g(x) by {
            let i = choose|i: int| 0 <= i < d.len() && d[i] == x;
            assert(dom[i] == x);
        }
        lemma_dsum_ext(d, f, g);
        assert(dom.contains(dom.last()));
    }
}

proof fn lemma_dsum_zero(dom: Seq<i64>, f: spec_fn(i64) -> nat)
    requires
        forall|x: i64| dom.contains(x) ==> #[trigger] f(x) == 0,
    ensures
        dsum(dom, f) == 0,
    decreases dom.len(),
{
    if dom.len() > 0 {
        let d = dom.drop_last();
        assert forall|x: i64| d.contains(x) implies #[trigger] f(x) == 0 by {
            let i = choose|i: int| 0 <= i < d.len() && d[i] == x;
            assert(dom[i] == x);
        }
        lemma_dsum_zero(d, f);
        assert(dom.contains(dom.last()));
    }
}

proof fn lemma_dsum_add(dom: Seq<i64>, f: spec_fn(i64) -> nat, g: spec_fn(i64) -> nat, h: spec_fn(i64) -> nat)
    requires
        forall|x: i64| #[trigger] h(x) == f(x) + g(x),
    ensures
        dsum(dom, h) == dsum(dom, f) + dsum(dom, g),
    decreases dom.len(),
{
    if dom.len() > 0 {
        lemma_dsum_add(dom.drop_last(), f, g, h);
    }
}

proof fn lemma_dsum_scale(dom: Seq<i64>, f: spec_fn(i64) -> nat, c: nat, h: spec_fn(i64) -> nat)
    requires
        forall|x: i64| #[trigger] h(x) == c * f(x),
    ensures
        dsum(dom, h) == c * dsum(dom, f),
    decreases dom.len(),
{
    if dom.len() > 0 {
        lemma_dsum_scale(dom.drop_last(), f, c, h);
        let a = dsum(dom.drop_last(), f);
        let b = f(dom.last());
        assert(h(dom.last()) == c * b);
        assert(dsum(dom, f) == a + b);
        assert(dsum(dom, h) == c * a + c * b);
        assert(c * (a + b) == c * a + c * b) by (nonlinear_arith);
        assert(c * dsum(dom, f) == c * (a + b));
    } else {
        assert(c * 0 == 0) by (nonlinear_arith);
    }
}

proof fn lemma_dsum_mod(dom: Seq<i64>, f: spec_fn(i64) -> nat, g: spec_fn(i64) -> nat)
    requires
        forall|x: i64| #[trigger] f(x) % word() == g(x) % word(),
    ensures
        dsum(dom, f) % word() == dsum(dom, g) % word(),
    decreases dom.len(),
{
    if dom.len() > 0 {
        let d = dom.drop_last();
        lemma_dsum_mod(d, f, g);
        let x = dom.last();
        vstd::arithmetic::div_mod::lemma_add_mod_noop(dsum(d, f) as int, f(x) as int, word() as int);
        vstd::arithmetic::div_mod::lemma_add_mod_noop(dsum(d, g) as int, g(x) as int, word() as int);
    }
}

/// Summing the two coordinates of a grid in either order gives the same total.
proof fn lemma_dsum_swap(d1: Seq<i64>, d2: Seq<i64>, h: spec_fn(i64, i64) -> nat)
    ensures
        dsum(d1, row_sum(d2, h)) == dsum(d2, col_sum(d1, h)),
    decreases d1.len(),
{
    if d1.len() == 0 {
        assert forall|y: i64| d2.contains(y) implies #[trigger] col_sum(d1, h)(y) == 0 by {
        }
        lemma_dsum_zero(d2, col_sum(d1, h));
    } else {
        let d = d1.drop_last();
        let a = d1.last();
        lemma_dsum_swap(d, d2, h);
        assert forall|y: i64| #[trigger] col_sum(d1, h)(y) == col_sum(d, h)(y) + slice(h, a)(y) by {
            assert(dsum(d1, tslice(h, y)) == dsum(d, tslice(h, y)) + tslice(h, y)(a));
        }
        lemma_dsum_add(d2, col_sum(d, h), slice(h, a), col_sum(d1, h));
        assert(dsum(d1, row_sum(d2, h)) == dsum(d, row_sum(d2, h)) + row_sum(d2, h)(a));
    }
}

/// The sum over a list without position `j`, plus the element at `j`.
proof fn lemma_dsum_remove(e: Seq<i64>, j: int, f: spec_fn(i64) -> nat)
    requires
        0 <= j < e.len(),
    ensures
        dsum(e, f) == dsum(e.remove(j), f) + f(e[j]),
    decreases e.len(),
{
    if j < e.len() - 1 {
        let d = e.drop_last();
        lemma_dsum_remove(d, j, f);
        assert(e.remove(j).drop_last() =~= d.remove(j));
        assert(e.remove(j).last() == e.last());
    } else {
        assert(e.remove(j) =~= e.drop_last());
    }
}

/// Two duplicate-free lists that differ only in points where `f` vanishes have
/// the same sum.
proof fn lemma_dsum_support(d: Seq<i64>, e: Seq<i64>, f: spec_fn(i64) -> nat)
    requires
        d.no_duplicates(),
        e.no_duplicates(),
        forall|x: i64| d.contains(x) && !e.contains(x) ==> #[trigger] f(x) == 0,
        forall|x: i64| e.contains(x) && !d.contains(x) ==> #[trigger] f(x) == 0,
    ensures
        dsum(d, f) == dsum(e, f),
    decreases d.len() + e.len(),
{
    if d.len() == 0 {
        lemma_dsum_zero(e, f);
    } else {
        let x = d.last();
        let d1 = d.drop_last();
        assert(d.contains(x));
        assert(!d1.contains(x)) by {
            if d1.contains(x) {
                let i = choose|i: int| 0 <= i < d1.len() && d1[i] == x;
                assert(d[i] == d[d.len() - 1]);
            }
        }
        assert(d1.no_duplicates()) by {
            assert forall|a: int, b: int| 0 <= a < d1.len() && 0 <= b < d1.len() && a != b implies d1[a] != d1[b] by {
                assert(d1[a] == d[a] && d1[b] == d[b]);
            }
        }
        if e.contains(x) {
            let j = choose|j: int| 0 <= j < e.len() && e[j] == x;
            let e1 = e.remove(j);
            lemma_dsum_remove(e, j, f);
            assert(e1.no_duplicates()) by {
                assert forall|a: int, b: int| 0 <= a < e1.len() && 0 <= b < e1.len() && a != b implies e1[a] != e1[b] by {
                    let a2 = if a < j { a } else { a + 1 };
                    let b2 = if b < j { b } else { b + 1 };
                    assert(e1[a] == e[a2] && e1[b] == e[b2]);
                }
            }
            assert forall|y: i64| d1.contains(y) && !e1.contains(y) implies #[trigger] f(y) == 0 by {
                let i = choose|i: int| 0 <= i < d1.len() && d1[i] == y;
                assert(d[i] == y);
                if e.contains(y) {
                    let k = choose|k: int| 0 <= k < e.len() && e[k] == y;
                    if k == j {
                        assert(y == x);
                    } else {
                        let k2 = if k < j { k } else { k - 1 };
                        assert(e1[k2] == y);
                    }
                }
            }
            assert forall|y: i64| e1.contains(y) && !d1.contains(y) implies #[trigger] f(y) == 0 by {
                let k = choose|k: int| 0 <= k < e1.len() && e1[k] == y;
                let k2 = if k < j { k } else { k + 1 };
                assert(e[k2] == y);
                assert(y != x) by {
                    if y == x {
                        assert(e[k2] == e[j]);
                    }
                }
                if d.contains(y) {
                    let i = choose|i: int| 0 <= i < d.len() && d[i] == y;
                    assert(i != d.len() - 1);
                    assert(d1[i] == y);
                }
            }
            lemma_dsum_support(d1, e1, f);
        } else {
            assert(f(x) == 0);
            assert forall|y: i64| d1.contains(y) && !e.contains(y) implies #[trigger] f(y) == 0 by {
                let i = choose|i: int| 0 <= i < d1.len() && d1[i] == y;
                assert(d[i] == y);
            }
            assert forall|y: i64| e.contains(y) && !d1.contains(y) implies #[trigger] f(y) == 0 by {
                if d.contains(y) {
                    let i = choose|i: int| 0 <= i < d.len() && d[i] == y;
                    if i < d.len() - 1 {
                        assert(d1[i] == y);
                    }
                }
            }
            lemma_dsum_support(d1, e, f);
        }
    }
}

proof fn lemma_insert_commute(th: Assign, a: u32, x: i64, b: u32, y: i64)
    requires
        a != b,
    ensures
        th.insert(a, x).insert(b, y) == th.insert(b, y).insert(a, x),
{
    assert(th.insert(a, x).insert(b, y) =~= th.insert(b, y).insert(a, x));
}

/// The grid of the two variables summed first in `lemma_tot_pull`.
spec fn pull_grid(rr: Seq<u32>, dom: Seq<i64>, th: Assign, leaf: spec_fn(Assign) -> nat, u: u32, v: u32) -> spec_fn(i64, i64) -> nat {
    |y: i64, x: i64| tot(rr, dom, th.insert(u, y).insert(v, x), leaf)
}

/// Any variable of the list may be summed out first.
proof fn lemma_tot_pull(vs: Seq<u32>, k: int, dom: Seq<i64>, th: Assign, leaf: spec_fn(Assign) -> nat)
    requires
        vs.no_duplicates(),
        0 <= k < vs.len(),
    ensures
        tot(vs, dom, th, leaf) == dsum(dom, pulled(vs, k, dom, th, leaf)),
    decreases k,
{
    assert(tot(vs, dom, th, leaf) == dsum(dom, tot_at(vs, dom, th, leaf)));
    if k == 0 {
        assert(vs.remove(0) =~= vs.drop_first());
        lemma_dsum_ext(dom, tot_at(vs, dom, th, leaf), pulled(vs, k, dom, th, leaf));
    } else {
        let r = vs.drop_first();
        let u = vs[0];
        let v = vs[k];
        assert(r.no_duplicates()) by {
            assert forall|a: int, b: int| 0 <= a < r.len() && 0 <= b < r.len() && a != b implies r[a] != r[b] by {
                assert(r[a] == vs[a + 1] && r[b] == vs[b + 1]);
            }
        }
        assert(r[k - 1] == v);
        assert(u != v);
        let rr = r.remove(k - 1);
        let w = vs.remove(k);
        assert(w =~= seq![u] + rr);
        assert(w.drop_first() =~= rr);
        assert(w[0] == u);
        let grid = pull_grid(rr, dom, th, leaf, u, v);
        assert forall|y: i64| #[trigger] tot_at(vs, dom, th, leaf)(y) == row_sum(dom, grid)(y) by {
            lemma_tot_pull(r, k - 1, dom, th.insert(u, y), leaf);
            assert forall|x: i64| #[trigger] pulled(r, k - 1, dom, th.insert(u, y), leaf)(x) == slice(grid, y)(x) by {
            }
            lemma_dsum_ext(dom, pulled(r, k - 1, dom, th.insert(u, y), leaf), slice(grid, y));
        }
        lemma_dsum_ext(dom, tot_at(vs, dom, th, leaf), row_sum(dom, grid));
        lemma_dsum_swap(dom, dom, grid);
        assert forall|x: i64| #[trigger] col_sum(dom, grid)(x) == pulled(vs, k, dom, th, leaf)(x) by {
            assert(pulled(vs, k, dom, th, leaf)(x) == tot(w, dom, th.insert(v, x), leaf));
            assert(tot(w, dom, th.insert(v, x), leaf) == dsum(dom, tot_at(w, dom, th.insert(v, x), leaf)));
            assert forall|y: i64| #[trigger] tot_at(w, dom, th.insert(v, x), leaf)(y) == tslice(grid, x)(y) by {
                lemma_insert_commute(th, u, y, v, x);
            }
            lemma_dsum_ext(dom, tot_at(w, dom, th.insert(v, x), leaf), tslice(grid, x));
        }
        lemma_dsum_ext(dom, col_sum(dom, grid), pulled(vs, k, dom, th, leaf));
    }
}

/// The leaf with `v` summed out: at `t`, the sum of `leaf` over the values of `v`.
pub open spec fn sum_out(v: u32, dom: Seq<i64>, leaf: spec_fn(Assign) -> nat) -> spec_fn(Assign) -> nat {
    |t: Assign| dsum(dom, at_v(leaf, t, v))
}

/// `leaf` at `t` with `v` set to `x`, as a function of `x`.
pub open spec fn at_v(leaf: spec_fn(Assign) -> nat, t: Assign, v: u32) -> spec_fn(i64) -> nat {
    |x: i64| leaf(t.insert(v, x))
}

/// The sum over the other variables, as a function of the value of `v`.
pub open spec fn pushed(vs: Seq<u32>, v: u32, dom: Seq<i64>, th: Assign, leaf: spec_fn(Assign) -> nat) -> spec_fn(i64) -> nat {
    |x: i64| tot(vs, dom, th.insert(v, x), leaf)
}

spec fn push_grid(r: Seq<u32>, dom: Seq<i64>, th: Assign, leaf: spec_fn(Assign) -> nat, u: u32, v: u32) -> spec_fn(i64, i64) -> nat {
    |x: i64, y: i64| tot(r, dom, th.insert(u, y).insert(v, x), leaf)
}

/// Summing `v` outside the other variables equals summing it innermost.
proof fn lemma_tot_push(vs: Seq<u32>, v: u32, dom: Seq<i64>, th: Assign, leaf: spec_fn(Assign) -> nat)
    requires
        !vs.contains(v),
    ensures
        dsum(dom, pushed(vs, v, dom, th, leaf)) == tot(vs, dom, th, sum_out(v, dom, leaf)),
    decreases vs.len(),
{
    if vs.len() == 0 {
        assert forall|x: i64| #[trigger] pushed(vs, v, dom, th, leaf)(x) == at_v(leaf, th, v)(x) by {
        }
        lemma_dsum_ext(dom, pushed(vs, v, dom, th, leaf), at_v(leaf, th, v));
    } else {
        let u = vs[0];
        let r = vs.drop_first();
        assert(u != v);
        assert(!r.contains(v)) by {
            if r.contains(v) {
                let i = choose|i: int| 0 <= i < r.len() && r[i] == v;
                assert(vs[i + 1] == v);
            }
        }
        let grid = push_grid(r, dom, th, leaf, u, v);
        assert forall|x: i64| #[trigger] pushed(vs, v, dom, th, leaf)(x) == row_sum(dom, grid)(x) by {
            assert(tot(vs, dom, th.insert(v, x), leaf) == dsum(dom, tot_at(vs, dom, th.insert(v, x), leaf)));
            assert forall|y: i64| #[trigger] tot_at(vs, dom, th.insert(v, x), leaf)(y) == slice(grid, x)(y) by {
                lemma_insert_commute(th, u, y, v, x);
            }
            lemma_dsum_ext(dom, tot_at(vs, dom, th.insert(v, x), leaf), slice(grid, x));
        }
        lemma_dsum_ext(dom, pushed(vs, v, dom, th, leaf), row_sum(dom, grid));
        lemma_dsum_swap(dom, dom, grid);
        assert forall|y: i64| #[trigger] col_sum(dom, grid)(y) == tot_at(vs, dom, th, sum_out(v, dom, leaf))(y) by {
            lemma_tot_push(r, v, dom, th.insert(u, y), leaf);
            assert forall|x: i64| #[trigger] tslice(grid, y)(x) == pushed(r, v, dom, th.insert(u, y), leaf)(x) by {
            }
            lemma_dsum_ext(dom, tslice(grid, y), pushed(r, v, dom, th.insert(u, y), leaf));
        }
        lemma_dsum_ext(dom, col_sum(dom, grid), tot_at(vs, dom, th, sum_out(v, dom, leaf)));
    }
}

/// Leaves that agree modulo the word give totals that agree modulo the word.
proof fn lemma_tot_mod(vs: Seq<u32>, dom: Seq<i64>, th: Assign, l1: spec_fn(Assign) -> nat, l2: spec_fn(Assign) -> nat)
    requires
        forall|t: Assign| #[trigger] l1(t) % word() == l2(t) % word(),
    ensures
        tot(vs, dom, th, l1) % word() == tot(vs, dom, th, l2) % word(),
    decreases vs.len(),
{
    if vs.len() > 0 {
        assert forall|x: i64| #[trigger] tot_at(vs, dom, th, l1)(x) % word() == tot_at(vs, dom, th, l2)(x) % word() by {
            lemma_tot_mod(vs.drop_first(), dom, th.insert(vs[0], x), l1, l2);
        }
        lemma_dsum_mod(dom, tot_at(vs, dom, th, l1), tot_at(vs, dom, th, l2));
    }
}

/// Equal leaves give equal totals.
proof fn lemma_tot_ext(vs: Seq<u32>, dom: Seq<i64>, th: Assign, l1: spec_fn(Assign) -> nat, l2: spec_fn(Assign) -> nat)
    requires
        forall|t: Assign| #[trigger] l1(t) == l2(t),
    ensures
        tot(vs, dom, th, l1) == tot(vs, dom, th, l2),
    decreases vs.len(),
{
    if vs.len() > 0 {
        assert forall|x: i64| dom.contains(x) implies #[trigger] tot_at(vs, dom, th, l1)(x) == tot_at(vs, dom, th, l2)(x) by {
            lemma_tot_ext(vs.drop_first(), dom, th.insert(vs[0], x), l1, l2);
        }
        lemma_dsum_ext(dom, tot_at(vs, dom, th, l1), tot_at(vs, dom, th, l2));
    }
}

// ---------------------------------------------------------------------------
// Factors.

/// A factor: a count for each assignment of its variables. The value at an
/// assignment is the sum of the counts filed under its key in `table`.
struct Factor {
    vars: Vec<u32>,
    table: Vec<(Vec<i64>, u64)>,
}

/// The values of `vars` under `th`, in order.
pub open spec fn key_of(vars: Seq<u32>, th: Assign) -> Seq<i64> {
    vars.map_values(|v: u32| th[v])
}

/// The counts filed under `key`, summed.
spec fn tval(t: Seq<(Vec<i64>, u64)>, key: Seq<i64>) -> nat
    decreases t.len(),
{
    if t.len() == 0 {
        0
    } else {
        tval(t.drop_last(), key) + if t.last().0@ == key { t.last().1 as nat } else { 0 }
    }
}

/// The value of a factor at an assignment.
spec fn fval(f: Factor, th: Assign) -> nat {
    tval(f.table@, key_of(f.vars@, th))
}

/// The product of the factors' values at an assignment.
spec fn fprod(fs: Seq<Factor>, th: Assign) -> nat
    decreases fs.len(),
{
    if fs.len() == 0 { 1 } else { fprod(fs.drop_last(), th) * fval(fs.last(), th) }
}

/// The product of the factors, as a function of the assignment.
spec fn leaf_of(fs: Seq<Factor>) -> spec_fn(Assign) -> nat {
    |th: Assign| fprod(fs, th)
}

/// A factor's variables are all in `s`, and each key has one value per variable.
spec fn factor_ok(f: Factor, s: Set<u32>) -> bool {
    &&& f.vars@.to_set().subset_of(s)
    &&& forall|e: int| 0 <= e < f.table@.len() ==> (#[trigger] f.table@[e]).0@.len() == f.vars@.len()
}

/// Every value filed in the factor's keys is in `dom`.
spec fn keys_in(f: Factor, dom: Set<i64>) -> bool {
    forall|e: int, j: int| 0 <= e < f.table@.len() && 0 <= j < f.table@[e].0@.len() ==> dom.contains(#[trigger] f.table@[e].0@[j])
}

proof fn lemma_key_agree(vars: Seq<u32>, t1: Assign, t2: Assign)
    requires
        forall|u: u32| vars.contains(u) ==> t1[u] == t2[u],
    ensures
        key_of(vars, t1) == key_of(vars, t2),
{
    assert forall|j: int| 0 <= j < vars.len() implies key_of(vars, t1)[j] == key_of(vars, t2)[j] by {
        assert(vars.contains(vars[j]));
    }
    assert(key_of(vars, t1) =~= key_of(vars, t2));
}

/// A factor that does not mention `v` does not see its value.
proof fn lemma_fval_indep(f: Factor, th: Assign, v: u32, x: i64)
    requires
        !f.vars@.contains(v),
    ensures
        fval(f, th.insert(v, x)) == fval(f, th),
{
    lemma_key_agree(f.vars@, th.insert(v, x), th);
}

/// No entry is filed under a key none of whose entries' `j`-th values is `y`.
proof fn lemma_tval_absent(t: Seq<(Vec<i64>, u64)>, key: Seq<i64>, j: int)
    requires
        0 <= j < key.len(),
        forall|e: int| 0 <= e < t.len() ==> (#[trigger] t[e]).0@.len() == key.len() ==> t[e].0@[j] != key[j],
    ensures
        tval(t, key) == 0,
    decreases t.len(),
{
    if t.len() > 0 {
        let l = t.len() - 1;
        assert(t.last() == t[l]);
        if t.last().0@ == key {
            assert(t[l].0@[j] == key[j]);
        }
        lemma_tval_absent(t.drop_last(), key, j);
    }
}

/// The counts of a table held modulo the word, summed, by a scan.
fn lookup(t: &Vec<(Vec<i64>, u64)>, key: &Vec<i64>) -> (r: u64)
    ensures
        r as nat == tval(t@, key@) % word(),
{
    let mut r: u64 = 0;
    let mut i: usize = 0;
    while i < t.len()
        invariant
            i <= t@.len(),
            r as nat == tval(t@.take(i as int), key@) % word(),
        decreases t@.len() - i,
    {
        let same = same_key(&t[i].0, key);
        let ghost before = tval(t@.take(i as int), key@);
        proof {
            assert(t@.take(i + 1).drop_last() =~= t@.take(i as int));
            assert(t@.take(i + 1).last() == t@[i as int]);
        }
        if same {
            let c = t[i].1;
            proof {
                vstd::arithmetic::div_mod::lemma_add_mod_noop(before as int, c as int, word() as int);
                assert(c as int % word() as int == c as int);
            }
            r = r.wrapping_add(c);
        }
        i = i + 1;
    }
    assert(t@.take(i as int) =~= t@);
    r
}

/// Whether two keys are equal.
fn same_key(a: &Vec<i64>, b: &Vec<i64>) -> (r: bool)
    ensures
        r == (a@ == b@),
{
    if a.len() != b.len() {
        return false;
    }
    let mut i: usize = 0;
    while i < a.len()
        invariant
            i <= a@.len(),
            a@.len() == b@.len(),
            forall|k: int| 0 <= k < i ==> a@[k] == b@[k],
        decreases a@.len() - i,
    {
        if a[i] != b[i] {
            return false;
        }
        i = i + 1;
    }
    assert(a@ =~= b@);
    true
}

// ---------------------------------------------------------------------------
// The join count.

/// How often `key` occurs among `rows`.
pub open spec fn mult(rows: Seq<Seq<i64>>, key: Seq<i64>) -> nat
    decreases rows.len(),
{
    if rows.len() == 0 { 0 } else { mult(rows.drop_last(), key) + if rows.last() == key { 1nat } else { 0nat } }
}

/// The product over the atoms of how often the atom's tuple under `th` occurs
/// in its relation.
pub open spec fn weight(atoms: Seq<Atom>, rels: Seq<Seq<Seq<i64>>>, th: Assign) -> nat
    decreases atoms.len(),
{
    if atoms.len() == 0 {
        1
    } else {
        weight(atoms.drop_last(), rels, th) * mult(rels[atoms.len() - 1], key_of(atoms.last().vars@, th))
    }
}

/// The weight, as a function of the assignment.
pub open spec fn weight_of(atoms: Seq<Atom>, rels: Seq<Seq<Seq<i64>>>) -> spec_fn(Assign) -> nat {
    |th: Assign| weight(atoms, rels, th)
}

/// The values of a list of tuples, in order.
pub open spec fn flat_rows(rows: Seq<Seq<i64>>) -> Seq<i64>
    decreases rows.len(),
{
    if rows.len() == 0 { Seq::empty() } else { flat_rows(rows.drop_last()) + rows.last() }
}

/// The values of all the relations, in order.
pub open spec fn flat(rels: Seq<Seq<Seq<i64>>>) -> Seq<i64>
    decreases rels.len(),
{
    if rels.len() == 0 { Seq::empty() } else { flat(rels.drop_last()) + flat_rows(rels.last()) }
}

/// The values of `s`, each once, in order of first occurrence.
pub open spec fn dedup_values(s: Seq<i64>) -> Seq<i64>
    decreases s.len(),
{
    if s.len() == 0 {
        Seq::empty()
    } else {
        let d = dedup_values(s.drop_last());
        if d.contains(s.last()) { d } else { d.push(s.last()) }
    }
}

/// The values that occur in the relations, each once.
pub open spec fn active_domain(rels: Seq<Seq<Seq<i64>>>) -> Seq<i64> {
    dedup_values(flat(rels))
}

/// The query's variables, each once (nested sums do not depend on the order).
pub open spec fn query_vars(atoms: Seq<Atom>) -> Seq<u32> {
    choose|s: Seq<u32>| s.no_duplicates() && s.to_set() == all_vars(atoms)
}

/// The nested-loop join count: over every assignment of the query's variables
/// to values of the active domain, the product over the atoms of how often the
/// atom's tuple occurs in its relation, summed.
pub open spec fn join_count(atoms: Seq<Atom>, rels: Seq<Seq<Seq<i64>>>) -> nat {
    tot(query_vars(atoms), active_domain(rels), Map::empty(), weight_of(atoms, rels))
}

/// The relations as sequences of value sequences.
pub open spec fn rel_views(rs: Seq<Vec<Vec<i64>>>) -> Seq<Seq<Seq<i64>>> {
    rs.map_values(|r: Vec<Vec<i64>>| r@.map_values(|t: Vec<i64>| t@))
}

proof fn lemma_dedup_values(s: Seq<i64>)
    ensures
        dedup_values(s).no_duplicates(),
        dedup_values(s).to_set() == s.to_set(),
    decreases s.len(),
{
    if s.len() > 0 {
        let p = s.drop_last();
        lemma_dedup_values(p);
        let d = dedup_values(p);
        assert(s =~= p.push(s.last()));
        crate::math::lemma_push_to_set(p, s.last());
        if !d.contains(s.last()) {
            crate::math::lemma_push_to_set(d, s.last());
            assert forall|a: int, b: int| 0 <= a < d.len() + 1 && 0 <= b < d.len() + 1 && a != b implies d.push(s.last())[a] != d.push(s.last())[b] by {
                if a == d.len() { assert(d.contains(d.push(s.last())[b])); }
                if b == d.len() { assert(d.contains(d.push(s.last())[a])); }
            }
        } else {
            assert(d.to_set().contains(s.last()));
            assert(p.to_set().insert(s.last()) =~= p.to_set());
        }
    }
}

/// A copy of a key.
fn copy_key(v: &Vec<i64>) -> (r: Vec<i64>)
    ensures
        r@ == v@,
{
    let mut r: Vec<i64> = Vec::new();
    let mut i: usize = 0;
    while i < v.len()
        invariant
            i <= v@.len(),
            r@ == v@.take(i as int),
        decreases v@.len() - i,
    {
        r.push(v[i]);
        i = i + 1;
        assert(r@ =~= v@.take(i as int));
    }
    assert(v@.take(i as int) =~= v@);
    r
}

/// The factor of an atom: one count per tuple of its relation.
fn from_atom(vars: &Vec<u32>, tuples: &Vec<Vec<i64>>) -> (f: Factor)
    requires
        forall|i: int| 0 <= i < tuples@.len() ==> (#[trigger] tuples@[i])@.len() == vars@.len(),
    ensures
        f.vars@ == vars@,
        forall|e: int| 0 <= e < f.table@.len() ==> (#[trigger] f.table@[e]).0@.len() == vars@.len(),
        forall|e: int, j: int| 0 <= e < f.table@.len() && 0 <= j < f.table@[e].0@.len() ==> flat_rows(tuples@.map_values(|t: Vec<i64>| t@)).contains(#[trigger] f.table@[e].0@[j]),
        forall|key: Seq<i64>| #[trigger] tval(f.table@, key) == mult(tuples@.map_values(|t: Vec<i64>| t@), key),
{
    let ghost rows = tuples@.map_values(|t: Vec<i64>| t@);
    let mut table: Vec<(Vec<i64>, u64)> = Vec::new();
    let mut i: usize = 0;
    while i < tuples.len()
        invariant
            i <= tuples@.len(),
            rows == tuples@.map_values(|t: Vec<i64>| t@),
            forall|k: int| 0 <= k < tuples@.len() ==> (#[trigger] tuples@[k])@.len() == vars@.len(),
            table@.len() == i,
            forall|e: int| 0 <= e < i ==> (#[trigger] table@[e]).0@ == rows[e] && table@[e].1 == 1,
            forall|key: Seq<i64>| #[trigger] tval(table@, key) == mult(rows.take(i as int), key),
        decreases tuples@.len() - i,
    {
        let k = copy_key(&tuples[i]);
        let ghost t0 = table@;
        table.push((k, 1));
        proof {
            assert(table@.drop_last() == t0);
            assert(rows.take(i + 1).drop_last() =~= rows.take(i as int));
            assert(rows.take(i + 1).last() == rows[i as int]);
            assert(table@.last().0@ == rows[i as int]);
            assert(table@.last().1 == 1);
            assert forall|key: Seq<i64>| #[trigger] tval(table@, key) == mult(rows.take(i + 1), key) by {
                assert(tval(t0, key) == mult(rows.take(i as int), key));
                assert(tval(table@, key) == tval(t0, key) + if table@.last().0@ == key { table@.last().1 as nat } else { 0 });
            }
        }
        i = i + 1;
    }
    proof {
        assert(rows.take(i as int) =~= rows);
        assert forall|e: int, j: int| 0 <= e < table@.len() && 0 <= j < table@[e].0@.len() implies flat_rows(rows).contains(#[trigger] table@[e].0@[j]) by {
            lemma_flat_rows_contains(rows, e, j);
        }
    }
    Factor { vars: copy_vars(vars), table }
}

/// Every value of every row is in the flattened rows.
proof fn lemma_flat_rows_contains(rows: Seq<Seq<i64>>, e: int, j: int)
    requires
        0 <= e < rows.len(),
        0 <= j < rows[e].len(),
    ensures
        flat_rows(rows).contains(rows[e][j]),
    decreases rows.len(),
{
    let p = rows.drop_last();
    if e < rows.len() - 1 {
        lemma_flat_rows_contains(p, e, j);
        let i = choose|i: int| 0 <= i < flat_rows(p).len() && flat_rows(p)[i] == rows[e][j];
        assert(flat_rows(rows)[i] == rows[e][j]);
    } else {
        assert(flat_rows(rows)[flat_rows(p).len() + j] == rows[e][j]);
    }
}

/// A copy of a variable list.
fn copy_vars(v: &Vec<u32>) -> (r: Vec<u32>)
    ensures
        r@ == v@,
{
    let mut r: Vec<u32> = Vec::new();
    let mut i: usize = 0;
    while i < v.len()
        invariant
            i <= v@.len(),
            r@ == v@.take(i as int),
        decreases v@.len() - i,
    {
        r.push(v[i]);
        i = i + 1;
        assert(r@ =~= v@.take(i as int));
    }
    assert(v@.take(i as int) =~= v@);
    r
}

// ---------------------------------------------------------------------------
// One elimination step.

/// The factors that mention `v`, and the others.
fn split(factors: Vec<Factor>, v: u32) -> (r: (Vec<Factor>, Vec<Factor>))
    ensures
        forall|i: int| 0 <= i < r.0@.len() ==> (#[trigger] r.0@[i]).vars@.contains(v),
        forall|i: int| 0 <= i < r.1@.len() ==> !(#[trigger] r.1@[i]).vars@.contains(v),
        forall|i: int| 0 <= i < r.0@.len() ==> factors@.contains(#[trigger] r.0@[i]),
        forall|i: int| 0 <= i < r.1@.len() ==> factors@.contains(#[trigger] r.1@[i]),
        forall|th: Assign| #[trigger] fprod(factors@, th) == fprod(r.0@, th) * fprod(r.1@, th),
        (exists|j: int| 0 <= j < factors@.len() && (#[trigger] factors@[j]).vars@.contains(v)) ==> r.0@.len() > 0,
        forall|j: int| 0 <= j < factors@.len() ==> r.0@.contains(#[trigger] factors@[j]) || r.1@.contains(factors@[j]),
{
    let ghost orig = factors@;
    let mut rest = factors;
    let mut with: Vec<Factor> = Vec::new();
    let mut without: Vec<Factor> = Vec::new();
    proof {
        assert(rest@ =~= orig.take(rest@.len() as int));
        assert forall|th: Assign| #[trigger] fprod(orig, th) == fprod(rest@, th) * (fprod(with@, th) * fprod(without@, th)) by {
            assert(fprod(with@, th) == 1);
            assert(fprod(without@, th) == 1);
            assert(rest@ == orig);
            let a = fprod(orig, th);
            assert(a * (1 * 1) == a) by (nonlinear_arith);
        }
    }
    while rest.len() > 0
        invariant
            rest@.len() <= orig.len(),
            rest@ == orig.take(rest@.len() as int),
            forall|i: int| 0 <= i < with@.len() ==> (#[trigger] with@[i]).vars@.contains(v),
            forall|i: int| 0 <= i < without@.len() ==> !(#[trigger] without@[i]).vars@.contains(v),
            forall|i: int| 0 <= i < with@.len() ==> orig.contains(#[trigger] with@[i]),
            forall|i: int| 0 <= i < without@.len() ==> orig.contains(#[trigger] without@[i]),
            forall|th: Assign| #[trigger] fprod(orig, th) == fprod(rest@, th) * (fprod(with@, th) * fprod(without@, th)),
            (exists|j: int| rest@.len() <= j < orig.len() && (#[trigger] orig[j]).vars@.contains(v)) ==> with@.len() > 0,
            forall|j: int| rest@.len() <= j < orig.len() ==> with@.contains(#[trigger] orig[j]) || without@.contains(orig[j]),
        decreases rest@.len(),
    {
        let ghost r0 = rest@;
        let ghost w0 = with@;
        let ghost o0 = without@;
        let f = rest.pop().unwrap();
        assert(r0 == rest@.push(f));
        assert(f == orig[rest@.len() as int]);
        assert(orig.contains(f));
        assert(rest@ =~= orig.take(rest@.len() as int));
        let has = contains_var(&f.vars, v);
        if has {
            with.push(f);
            proof {
                assert forall|th: Assign| #[trigger] fprod(orig, th) == fprod(rest@, th) * (fprod(with@, th) * fprod(without@, th)) by {
                    assert(with@.drop_last() == w0);
                    let a = fprod(rest@, th);
                    let b = fval(f, th);
                    let c = fprod(w0, th);
                    let d = fprod(o0, th);
                    assert(fprod(r0, th) == a * b);
                    assert(fprod(with@, th) == c * b);
                    assert((a * b) * (c * d) == a * ((c * b) * d)) by (nonlinear_arith);
                }
                assert forall|i: int| 0 <= i < with@.len() implies orig.contains(#[trigger] with@[i]) by {
                    if i < w0.len() { assert(with@[i] == w0[i]); }
                }
                assert(with@[w0.len() as int] == f);
                assert forall|j: int| rest@.len() <= j < orig.len() implies with@.contains(#[trigger] orig[j]) || without@.contains(orig[j]) by {
                    if j > rest@.len() {
                        if w0.contains(orig[j]) {
                            let q = choose|q: int| 0 <= q < w0.len() && w0[q] == orig[j];
                            assert(with@[q] == orig[j]);
                        }
                    }
                }
            }
        } else {
            without.push(f);
            proof {
                assert forall|th: Assign| #[trigger] fprod(orig, th) == fprod(rest@, th) * (fprod(with@, th) * fprod(without@, th)) by {
                    assert(without@.drop_last() == o0);
                    let a = fprod(rest@, th);
                    let b = fval(f, th);
                    let c = fprod(w0, th);
                    let d = fprod(o0, th);
                    assert(fprod(r0, th) == a * b);
                    assert(fprod(without@, th) == d * b);
                    assert((a * b) * (c * d) == a * (c * (d * b))) by (nonlinear_arith);
                }
                assert forall|i: int| 0 <= i < without@.len() implies orig.contains(#[trigger] without@[i]) by {
                    if i < o0.len() { assert(without@[i] == o0[i]); }
                }
                assert forall|i: int| 0 <= i < without@.len() implies !(#[trigger] without@[i]).vars@.contains(v) by {
                    if i < o0.len() { assert(without@[i] == o0[i]); }
                }
                assert(without@[o0.len() as int] == f);
                assert forall|j: int| rest@.len() <= j < orig.len() implies with@.contains(#[trigger] orig[j]) || without@.contains(orig[j]) by {
                    if j > rest@.len() {
                        if o0.contains(orig[j]) {
                            let q = choose|q: int| 0 <= q < o0.len() && o0[q] == orig[j];
                            assert(without@[q] == orig[j]);
                        }
                    }
                }
            }
        }
    }
    proof {
        assert forall|th: Assign| #[trigger] fprod(orig, th) == fprod(with@, th) * fprod(without@, th) by {
            assert(fprod(rest@, th) == 1);
        }
    }
    (with, without)
}

/// Whether `v` is among `vars`.
fn contains_var(vars: &Vec<u32>, v: u32) -> (r: bool)
    ensures
        r == vars@.contains(v),
{
    let mut i: usize = 0;
    while i < vars.len()
        invariant
            i <= vars@.len(),
            forall|k: int| 0 <= k < i ==> vars@[k] != v,
        decreases vars@.len() - i,
    {
        if vars[i] == v {
            return true;
        }
        i = i + 1;
    }
    false
}

/// Every key of `f` (of the factor's arity) has its value at position `p` in `list`.
spec fn at_pos_in(f: Factor, p: int, list: Seq<i64>) -> bool {
    forall|e: int| 0 <= e < f.table@.len() && (#[trigger] f.table@[e]).0@.len() == f.vars@.len() ==> list.contains(f.table@[e].0@[p])
}

/// `v` stands at some position of `f` whose key values are all in `list`.
spec fn var_covered(f: Factor, v: u32, list: Seq<i64>) -> bool {
    exists|p: int| 0 <= p < f.vars@.len() && f.vars@[p] == v && #[trigger] at_pos_in(f, p, list)
}

/// Every position of `f` holding `u` has its key values in `list`.
spec fn all_pos_in(f: Factor, u: u32, list: Seq<i64>) -> bool {
    forall|p: int| 0 <= p < f.vars@.len() && f.vars@[p] == u ==> #[trigger] at_pos_in(f, p, list)
}

proof fn lemma_at_pos_mono(f: Factor, p: int, a: Seq<i64>, b: Seq<i64>)
    requires
        at_pos_in(f, p, a),
        forall|x: i64| a.contains(x) ==> b.contains(x),
    ensures
        at_pos_in(f, p, b),
{
    assert forall|e: int| 0 <= e < f.table@.len() && (#[trigger] f.table@[e]).0@.len() == f.vars@.len() implies b.contains(f.table@[e].0@[p]) by {
        assert(a.contains(f.table@[e].0@[p]));
    }
}

/// Add `x` to a duplicate-free list unless it is there.
fn add_value(list: &mut Vec<i64>, x: i64)
    requires
        old(list)@.no_duplicates(),
    ensures
        final(list)@.no_duplicates(),
        final(list)@.to_set() == old(list)@.to_set().insert(x),
        forall|y: i64| old(list)@.contains(y) ==> final(list)@.contains(y),
        final(list)@.contains(x),
{
    let mut i: usize = 0;
    while i < list.len()
        invariant
            i <= list@.len(),
            list@ == old(list)@,
            list@.no_duplicates(),
            forall|k: int| 0 <= k < i ==> list@[k] != x,
        decreases list@.len() - i,
    {
        if list[i] == x {
            assert(list@.to_set() =~= list@.to_set().insert(x));
            return;
        }
        i = i + 1;
    }
    let ghost l0 = list@;
    list.push(x);
    proof {
        crate::math::lemma_push_to_set(l0, x);
        assert forall|a: int, b: int| 0 <= a < list@.len() && 0 <= b < list@.len() && a != b implies list@[a] != list@[b] by {
            if a < l0.len() && b < l0.len() { assert(list@[a] == l0[a] && list@[b] == l0[b]); }
        }
        assert forall|y: i64| l0.contains(y) implies list@.contains(y) by {
            let k = choose|k: int| 0 <= k < l0.len() && l0[k] == y;
            assert(list@[k] == y);
        }
        assert(list@[l0.len() as int] == x);
    }
}

/// Add the values at position `p` of the keys of `f` to the list.
fn collect_at(f: &Factor, p: usize, list: &mut Vec<i64>, Ghost(dom): Ghost<Set<i64>>)
    requires
        p < f.vars@.len(),
        keys_in(*f, dom),
        old(list)@.no_duplicates(),
        old(list)@.to_set().subset_of(dom),
    ensures
        final(list)@.no_duplicates(),
        final(list)@.to_set().subset_of(dom),
        forall|y: i64| old(list)@.contains(y) ==> final(list)@.contains(y),
        at_pos_in(*f, p as int, final(list)@),
{
    let ghost l0 = list@;
    let mut e: usize = 0;
    while e < f.table.len()
        invariant
            e <= f.table@.len(),
            p < f.vars@.len(),
            keys_in(*f, dom),
            list@.no_duplicates(),
            list@.to_set().subset_of(dom),
            forall|y: i64| l0.contains(y) ==> list@.contains(y),
            forall|k: int| 0 <= k < e && (#[trigger] f.table@[k]).0@.len() == f.vars@.len() ==> list@.contains(f.table@[k].0@[p as int]),
        decreases f.table@.len() - e,
    {
        if f.table[e].0.len() == f.vars.len() {
            let x = f.table[e].0[p];
            let ghost l1 = list@;
            assert(dom.contains(f.table@[e as int].0@[p as int]));
            add_value(list, x);
            proof {
                assert forall|k: int| 0 <= k < e + 1 && (#[trigger] f.table@[k]).0@.len() == f.vars@.len() implies list@.contains(f.table@[k].0@[p as int]) by {
                    if k < e { assert(l1.contains(f.table@[k].0@[p as int])); }
                }
            }
        }
        e = e + 1;
    }
}

/// The first position of `v` in `vars`.
fn position(vars: &Vec<u32>, v: u32) -> (p: usize)
    requires
        vars@.contains(v),
    ensures
        p < vars@.len(),
        vars@[p as int] == v,
{
    let mut i: usize = 0;
    while i < vars.len()
        invariant
            i <= vars@.len(),
            vars@.contains(v),
            forall|k: int| 0 <= k < i ==> vars@[k] != v,
        decreases vars@.len() - i,
    {
        if vars[i] == v {
            return i;
        }
        i = i + 1;
    }
    proof {
        let k = choose|k: int| 0 <= k < vars@.len() && vars@[k] == v;
        assert(vars@[k] != v);
    }
    0
}

/// The values `v` takes in the keys of the factors that mention it.
fn values_of_var(with: &Vec<Factor>, v: u32, Ghost(dom): Ghost<Set<i64>>) -> (dv: Vec<i64>)
    requires
        forall|i: int| 0 <= i < with@.len() ==> (#[trigger] with@[i]).vars@.contains(v) && keys_in(with@[i], dom),
    ensures
        dv@.no_duplicates(),
        dv@.to_set().subset_of(dom),
        forall|i: int| 0 <= i < with@.len() ==> var_covered(#[trigger] with@[i], v, dv@),
{
    let mut dv: Vec<i64> = Vec::new();
    let mut i: usize = 0;
    while i < with.len()
        invariant
            i <= with@.len(),
            forall|i: int| 0 <= i < with@.len() ==> (#[trigger] with@[i]).vars@.contains(v) && keys_in(with@[i], dom),
            dv@.no_duplicates(),
            dv@.to_set().subset_of(dom),
            forall|k: int| 0 <= k < i ==> var_covered(#[trigger] with@[k], v, dv@),
        decreases with@.len() - i,
    {
        let f = &with[i];
        let p = position(&f.vars, v);
        let ghost d0 = dv@;
        collect_at(f, p, &mut dv, Ghost(dom));
        proof {
            assert forall|k: int| 0 <= k < i + 1 implies var_covered(#[trigger] with@[k], v, dv@) by {
                if k < i {
                    let q = choose|q: int| 0 <= q < with@[k].vars@.len() && with@[k].vars@[q] == v && #[trigger] at_pos_in(with@[k], q, d0);
                    lemma_at_pos_mono(with@[k], q, d0, dv@);
                } else {
                    assert(at_pos_in(with@[k], p as int, dv@));
                }
            }
        }
        i = i + 1;
    }
    dv
}

// ---------------------------------------------------------------------------
// Evaluating the factors at an assignment of the new variables.

/// The assignment giving each variable of `vs` its value in `vals`.
spec fn assign_of(vs: Seq<u32>, vals: Seq<i64>) -> Assign {
    Map::new(|u: u32| vs.contains(u), |u: u32| vals[vs.index_of(u)])
}

proof fn lemma_assign_of(vs: Seq<u32>, vals: Seq<i64>, j: int)
    requires
        vs.no_duplicates(),
        0 <= j < vs.len(),
    ensures
        assign_of(vs, vals)[vs[j]] == vals[j],
{
    assert(vs.contains(vs[j]));
    let i = vs.index_of(vs[j]);
    assert(vs[i] == vs[j]);
}

/// A factor whose value is zero makes the product zero.
proof fn lemma_fprod_zero(fs: Seq<Factor>, th: Assign, i: int)
    requires
        0 <= i < fs.len(),
        fval(fs[i], th) == 0,
    ensures
        fprod(fs, th) == 0,
    decreases fs.len(),
{
    if i < fs.len() - 1 {
        lemma_fprod_zero(fs.drop_last(), th, i);
        assert(fprod(fs, th) == 0 * fval(fs.last(), th));
    } else {
        let a = fprod(fs.drop_last(), th);
        assert(a * 0 == 0) by (nonlinear_arith);
    }
}

/// Factors that do not mention `v` do not see its value.
proof fn lemma_fprod_indep(fs: Seq<Factor>, th: Assign, v: u32, x: i64)
    requires
        forall|i: int| 0 <= i < fs.len() ==> !(#[trigger] fs[i]).vars@.contains(v),
    ensures
        fprod(fs, th.insert(v, x)) == fprod(fs, th),
    decreases fs.len(),
{
    if fs.len() > 0 {
        lemma_fprod_indep(fs.drop_last(), th, v, x);
        lemma_fval_indep(fs.last(), th, v, x);
    }
}

/// Assignments that agree on the factors' variables give the same product.
proof fn lemma_fprod_agree(fs: Seq<Factor>, t1: Assign, t2: Assign)
    requires
        forall|i: int, u: u32| 0 <= i < fs.len() && #[trigger] fs[i].vars@.contains(u) ==> t1[u] == t2[u],
    ensures
        fprod(fs, t1) == fprod(fs, t2),
    decreases fs.len(),
{
    if fs.len() > 0 {
        let l = fs.len() - 1;
        assert forall|i: int, u: u32| 0 <= i < fs.drop_last().len() && #[trigger] fs.drop_last()[i].vars@.contains(u) implies t1[u] == t2[u] by {
            assert(fs[i] == fs.drop_last()[i]);
        }
        lemma_fprod_agree(fs.drop_last(), t1, t2);
        assert forall|u: u32| fs.last().vars@.contains(u) implies t1[u] == t2[u] by {
            assert(fs[l].vars@.contains(u));
        }
        lemma_key_agree(fs.last().vars@, t1, t2);
    }
}

/// The key of `f` under the new variables' values `k`, with `v` set to `x`.
fn key_at(f: &Factor, nv: &Vec<u32>, k: &Vec<i64>, v: u32, x: i64) -> (r: Vec<i64>)
    requires
        nv@.no_duplicates(),
        k@.len() == nv@.len(),
        forall|u: u32| f.vars@.contains(u) ==> u == v || nv@.contains(u),
    ensures
        r@ == key_of(f.vars@, assign_of(nv@, k@).insert(v, x)),
{
    let ghost th = assign_of(nv@, k@).insert(v, x);
    let mut r: Vec<i64> = Vec::new();
    let mut p: usize = 0;
    while p < f.vars.len()
        invariant
            p <= f.vars@.len(),
            nv@.no_duplicates(),
            k@.len() == nv@.len(),
            th == assign_of(nv@, k@).insert(v, x),
            forall|u: u32| f.vars@.contains(u) ==> u == v || nv@.contains(u),
            r@ == key_of(f.vars@, th).take(p as int),
        decreases f.vars@.len() - p,
    {
        let u = f.vars[p];
        assert(f.vars@.contains(u));
        if u == v {
            r.push(x);
        } else {
            let j = position(nv, u);
            proof {
                lemma_assign_of(nv@, k@, j as int);
            }
            r.push(k[j]);
        }
        p = p + 1;
        assert(r@ =~= key_of(f.vars@, th).take(p as int));
    }
    assert(key_of(f.vars@, th).take(p as int) =~= key_of(f.vars@, th));
    r
}

/// The product of the factors at the new variables' values `k` with `v` set to
/// `x`, modulo the word.
fn prod_at(with: &Vec<Factor>, nv: &Vec<u32>, k: &Vec<i64>, v: u32, x: i64) -> (r: u64)
    requires
        nv@.no_duplicates(),
        k@.len() == nv@.len(),
        forall|i: int, u: u32| 0 <= i < with@.len() && #[trigger] with@[i].vars@.contains(u) ==> u == v || nv@.contains(u),
    ensures
        r as nat == fprod(with@, assign_of(nv@, k@).insert(v, x)) % word(),
{
    let ghost th = assign_of(nv@, k@).insert(v, x);
    let mut r: u64 = 1;
    let mut i: usize = 0;
    while i < with.len()
        invariant
            i <= with@.len(),
            nv@.no_duplicates(),
            k@.len() == nv@.len(),
            th == assign_of(nv@, k@).insert(v, x),
            forall|i: int, u: u32| 0 <= i < with@.len() && #[trigger] with@[i].vars@.contains(u) ==> u == v || nv@.contains(u),
            r as nat == fprod(with@.take(i as int), th) % word(),
        decreases with@.len() - i,
    {
        let f = &with[i];
        assert forall|u: u32| f.vars@.contains(u) implies u == v || nv@.contains(u) by {
            assert(with@[i as int].vars@.contains(u));
        }
        let key = key_at(f, nv, k, v, x);
        let c = lookup(&f.table, &key);
        proof {
            let a = fprod(with@.take(i as int), th);
            let b = fval(with@[i as int], th);
            assert(with@.take(i + 1).drop_last() =~= with@.take(i as int));
            assert(with@.take(i + 1).last() == with@[i as int]);
            assert(fprod(with@.take(i + 1), th) == a * b);
            vstd::arithmetic::div_mod::lemma_mul_mod_noop(a as int, b as int, word() as int);
            assert((r as nat * c as nat) % word() == ((a % word()) * (b % word())) % word());
        }
        r = r.wrapping_mul(c);
        i = i + 1;
    }
    assert(with@.take(i as int) =~= with@);
    r
}

/// The sum over `v`'s values of the product of the factors, at the new
/// variables' values `key`.
spec fn gval(with: Seq<Factor>, nv: Seq<u32>, v: u32, dv: Seq<i64>, key: Seq<i64>) -> nat {
    dsum(dv, at_v(leaf_of(with), assign_of(nv, key), v))
}

/// `gval` modulo the word.
fn gsum(with: &Vec<Factor>, nv: &Vec<u32>, k: &Vec<i64>, v: u32, dv: &Vec<i64>) -> (r: u64)
    requires
        nv@.no_duplicates(),
        k@.len() == nv@.len(),
        forall|i: int, u: u32| 0 <= i < with@.len() && #[trigger] with@[i].vars@.contains(u) ==> u == v || nv@.contains(u),
    ensures
        r as nat == gval(with@, nv@, v, dv@, k@) % word(),
{
    let ghost g = at_v(leaf_of(with@), assign_of(nv@, k@), v);
    let mut r: u64 = 0;
    let mut i: usize = 0;
    while i < dv.len()
        invariant
            i <= dv@.len(),
            nv@.no_duplicates(),
            k@.len() == nv@.len(),
            g == at_v(leaf_of(with@), assign_of(nv@, k@), v),
            forall|i: int, u: u32| 0 <= i < with@.len() && #[trigger] with@[i].vars@.contains(u) ==> u == v || nv@.contains(u),
            r as nat == dsum(dv@.take(i as int), g) % word(),
        decreases dv@.len() - i,
    {
        let x = dv[i];
        let c = prod_at(with, nv, k, v, x);
        proof {
            let a = dsum(dv@.take(i as int), g);
            assert(dv@.take(i + 1).drop_last() =~= dv@.take(i as int));
            assert(dv@.take(i + 1).last() == x);
            assert(g(x) == fprod(with@, assign_of(nv@, k@).insert(v, x)));
            vstd::arithmetic::div_mod::lemma_add_mod_noop(a as int, g(x) as int, word() as int);
        }
        r = r.wrapping_add(c);
        i = i + 1;
    }
    assert(dv@.take(i as int) =~= dv@);
    r
}

// ---------------------------------------------------------------------------
// The new factor's variables and their value lists.

/// `u` is a variable of one of the first `n` factors.
spec fn in_first(fs: Seq<Factor>, n: int, u: u32) -> bool {
    exists|i: int| 0 <= i < n && #[trigger] fs[i].vars@.contains(u)
}

/// The variables of the factors that mention `v`, without `v`, ascending.
fn union_vars(with: &Vec<Factor>, v: u32) -> (nv: Vec<u32>)
    ensures
        increasing(nv@),
        forall|u: u32| #[trigger] nv@.contains(u) <==> (u != v && in_first(with@, with@.len() as int, u)),
{
    let mut nv: Vec<u32> = Vec::new();
    let mut i: usize = 0;
    while i < with.len()
        invariant
            i <= with@.len(),
            increasing(nv@),
            forall|u: u32| #[trigger] nv@.contains(u) <==> (u != v && in_first(with@, i as int, u)),
        decreases with@.len() - i,
    {
        let f = &with[i];
        let mut p: usize = 0;
        while p < f.vars.len()
            invariant
                i < with@.len(),
                *f == with@[i as int],
                p <= f.vars@.len(),
                increasing(nv@),
                forall|u: u32| #[trigger] nv@.contains(u) <==> (u != v && (in_first(with@, i as int, u) || f.vars@.take(p as int).contains(u))),
            decreases f.vars@.len() - p,
        {
            let u = f.vars[p];
            let ghost n0 = nv@;
            if u != v {
                insert_sorted(&mut nv, u);
            }
            proof {
                assert forall|w: u32| #[trigger] nv@.contains(w) <==> (w != v && (in_first(with@, i as int, w) || f.vars@.take(p + 1).contains(w))) by {
                    assert(nv@.to_set().contains(w) == nv@.contains(w));
                    assert(n0.to_set().contains(w) == n0.contains(w));
                    let t1 = f.vars@.take(p + 1);
                    let t0 = f.vars@.take(p as int);
                    if t1.contains(w) {
                        let q = choose|q: int| 0 <= q < t1.len() && t1[q] == w;
                        if q < p { assert(t0[q] == w); }
                    }
                    if t0.contains(w) {
                        let q = choose|q: int| 0 <= q < t0.len() && t0[q] == w;
                        assert(t1[q] == w);
                    }
                    assert(t1[p as int] == u);
                }
            }
            p = p + 1;
        }
        proof {
            assert(f.vars@.take(p as int) =~= f.vars@);
            assert forall|u: u32| #[trigger] nv@.contains(u) <==> (u != v && in_first(with@, i + 1, u)) by {
                if in_first(with@, i + 1, u) && !in_first(with@, i as int, u) {
                    let q = choose|q: int| 0 <= q < i + 1 && #[trigger] with@[q].vars@.contains(u);
                    assert(q == i);
                }
                if f.vars@.contains(u) {
                    assert(with@[i as int].vars@.contains(u));
                }
                if in_first(with@, i as int, u) {
                    let q = choose|q: int| 0 <= q < i && #[trigger] with@[q].vars@.contains(u);
                    assert(with@[q].vars@.contains(u));
                }
            }
        }
        i = i + 1;
    }
    nv
}

proof fn lemma_all_pos_mono(f: Factor, u: u32, a: Seq<i64>, b: Seq<i64>)
    requires
        all_pos_in(f, u, a),
        forall|x: i64| a.contains(x) ==> b.contains(x),
    ensures
        all_pos_in(f, u, b),
{
    assert forall|p: int| 0 <= p < f.vars@.len() && f.vars@[p] == u implies #[trigger] at_pos_in(f, p, b) by {
        lemma_at_pos_mono(f, p, a, b);
    }
}

/// The values `u` takes at all its positions in the factors.
fn domain_of(with: &Vec<Factor>, u: u32, Ghost(dom): Ghost<Set<i64>>) -> (d: Vec<i64>)
    requires
        forall|i: int| 0 <= i < with@.len() ==> keys_in(#[trigger] with@[i], dom),
    ensures
        d@.no_duplicates(),
        d@.to_set().subset_of(dom),
        forall|i: int| 0 <= i < with@.len() ==> all_pos_in(#[trigger] with@[i], u, d@),
{
    let mut d: Vec<i64> = Vec::new();
    let mut i: usize = 0;
    while i < with.len()
        invariant
            i <= with@.len(),
            forall|i: int| 0 <= i < with@.len() ==> keys_in(#[trigger] with@[i], dom),
            d@.no_duplicates(),
            d@.to_set().subset_of(dom),
            forall|k: int| 0 <= k < i ==> all_pos_in(#[trigger] with@[k], u, d@),
        decreases with@.len() - i,
    {
        let f = &with[i];
        let mut p: usize = 0;
        while p < f.vars.len()
            invariant
                i < with@.len(),
                *f == with@[i as int],
                keys_in(*f, dom),
                p <= f.vars@.len(),
                d@.no_duplicates(),
                d@.to_set().subset_of(dom),
                forall|k: int| 0 <= k < i ==> all_pos_in(#[trigger] with@[k], u, d@),
                forall|q: int| 0 <= q < p && f.vars@[q] == u ==> #[trigger] at_pos_in(*f, q, d@),
            decreases f.vars@.len() - p,
        {
            if f.vars[p] == u {
                let ghost d0 = d@;
                collect_at(f, p, &mut d, Ghost(dom));
                proof {
                    assert forall|k: int| 0 <= k < i implies all_pos_in(#[trigger] with@[k], u, d@) by {
                        lemma_all_pos_mono(with@[k], u, d0, d@);
                    }
                    assert forall|q: int| 0 <= q < p + 1 && f.vars@[q] == u implies #[trigger] at_pos_in(*f, q, d@) by {
                        if q < p { lemma_at_pos_mono(*f, q, d0, d@); }
                    }
                }
            }
            p = p + 1;
        }
        proof {
            assert(all_pos_in(with@[i as int], u, d@));
        }
        i = i + 1;
    }
    d
}

/// The value list of each new variable.
fn domains_of(with: &Vec<Factor>, nv: &Vec<u32>, Ghost(dom): Ghost<Set<i64>>) -> (ds: Vec<Vec<i64>>)
    requires
        forall|i: int| 0 <= i < with@.len() ==> keys_in(#[trigger] with@[i], dom),
    ensures
        ds@.len() == nv@.len(),
        forall|j: int| 0 <= j < ds@.len() ==> (#[trigger] ds@[j])@.no_duplicates() && ds@[j]@.to_set().subset_of(dom),
        forall|j: int, i: int| 0 <= j < ds@.len() && 0 <= i < with@.len() ==> all_pos_in(#[trigger] with@[i], nv@[j], #[trigger] ds@[j]@),
{
    let mut ds: Vec<Vec<i64>> = Vec::new();
    let mut j: usize = 0;
    while j < nv.len()
        invariant
            j <= nv@.len(),
            ds@.len() == j,
            forall|i: int| 0 <= i < with@.len() ==> keys_in(#[trigger] with@[i], dom),
            forall|j: int| 0 <= j < ds@.len() ==> (#[trigger] ds@[j])@.no_duplicates() && ds@[j]@.to_set().subset_of(dom),
            forall|j: int, i: int| 0 <= j < ds@.len() && 0 <= i < with@.len() ==> all_pos_in(#[trigger] with@[i], nv@[j], #[trigger] ds@[j]@),
        decreases nv@.len() - j,
    {
        let d = domain_of(with, nv[j], Ghost(dom));
        ds.push(d);
        j = j + 1;
    }
    ds
}

// ---------------------------------------------------------------------------
// Enumerating the new factor's table.

/// `key` extends `prefix` and takes each later value from its list.
spec fn in_box(key: Seq<i64>, prefix: Seq<i64>, ds: Seq<Vec<i64>>) -> bool {
    &&& key.len() == ds.len()
    &&& prefix.len() <= key.len()
    &&& key.take(prefix.len() as int) == prefix
    &&& forall|m: int| prefix.len() <= m < key.len() ==> (#[trigger] ds[m])@.contains(key[m])
}

/// Like `in_box`, with the next value among the first `j` of its list.
spec fn in_slab(key: Seq<i64>, prefix: Seq<i64>, ds: Seq<Vec<i64>>, j: int) -> bool {
    &&& key.len() == ds.len()
    &&& prefix.len() < key.len()
    &&& key.take(prefix.len() as int) == prefix
    &&& ds[prefix.len() as int]@.take(j).contains(key[prefix.len() as int])
    &&& forall|m: int| prefix.len() < m < key.len() ==> (#[trigger] ds[m])@.contains(key[m])
}

/// Every key of the table has one value per new variable, each in `dom`.
spec fn table_ok(t: Seq<(Vec<i64>, u64)>, n: nat, dom: Set<i64>) -> bool {
    forall|e: int| 0 <= e < t.len() ==> (#[trigger] t[e]).0@.len() == n && (forall|j: int| 0 <= j < n ==> dom.contains(t[e].0@[j]))
}

/// File, for every completion of `prefix` by values from the lists, the sum
/// over `v`'s values of the product of the factors (when it is not zero).
fn enumerate(
    with: &Vec<Factor>,
    nv: &Vec<u32>,
    v: u32,
    dv: &Vec<i64>,
    ds: &Vec<Vec<i64>>,
    prefix: &mut Vec<i64>,
    table: &mut Vec<(Vec<i64>, u64)>,
    Ghost(dom): Ghost<Set<i64>>,
)
    requires
        nv@.no_duplicates(),
        ds@.len() == nv@.len(),
        old(prefix)@.len() <= nv@.len(),
        forall|i: int, u: u32| 0 <= i < with@.len() && #[trigger] with@[i].vars@.contains(u) ==> u == v || nv@.contains(u),
        forall|j: int| 0 <= j < ds@.len() ==> (#[trigger] ds@[j])@.no_duplicates() && ds@[j]@.to_set().subset_of(dom),
        forall|m: int| 0 <= m < old(prefix)@.len() ==> dom.contains(#[trigger] old(prefix)@[m]),
        table_ok(old(table)@, nv@.len(), dom),
    ensures
        final(prefix)@ == old(prefix)@,
        table_ok(final(table)@, nv@.len(), dom),
        forall|key: Seq<i64>| #[trigger] tval(final(table)@, key) == tval(old(table)@, key) + (if in_box(key, old(prefix)@, ds@) { gval(with@, nv@, v, dv@, key) % word() } else { 0 }),
    decreases nv@.len() - old(prefix)@.len(),
{
    let ghost p0 = prefix@;
    let ghost t0 = table@;
    if prefix.len() == nv.len() {
        let sum = gsum(with, nv, prefix, v, dv);
        if sum != 0 {
            let k = copy_key(prefix);
            table.push((k, sum));
            proof {
                assert(table@.drop_last() == t0);
                assert forall|key: Seq<i64>| #[trigger] tval(table@, key) == tval(t0, key) + (if in_box(key, p0, ds@) { gval(with@, nv@, v, dv@, key) % word() } else { 0 }) by {
                    if in_box(key, p0, ds@) {
                        assert(key.take(p0.len() as int) =~= key);
                    }
                    if key == p0 {
                        assert(key.take(p0.len() as int) =~= key);
                    }
                }
                assert forall|e: int| 0 <= e < table@.len() implies (#[trigger] table@[e]).0@.len() == nv@.len() && (forall|j: int| 0 <= j < nv@.len() ==> dom.contains(table@[e].0@[j])) by {
                    if e < t0.len() { assert(table@[e] == t0[e]); }
                }
            }
        } else {
            proof {
                assert forall|key: Seq<i64>| #[trigger] tval(table@, key) == tval(t0, key) + (if in_box(key, p0, ds@) { gval(with@, nv@, v, dv@, key) % word() } else { 0 }) by {
                    if in_box(key, p0, ds@) {
                        assert(key.take(p0.len() as int) =~= key);
                    }
                }
            }
        }
    } else {
        let i = prefix.len();
        let d = &ds[i];
        let mut j: usize = 0;
        while j < d.len()
            invariant
                i == p0.len(),
                p0 == old(prefix)@,
                i < nv@.len(),
                *d == ds@[i as int],
                j <= d@.len(),
                prefix@ == p0,
                nv@.no_duplicates(),
                ds@.len() == nv@.len(),
                forall|i: int, u: u32| 0 <= i < with@.len() && #[trigger] with@[i].vars@.contains(u) ==> u == v || nv@.contains(u),
                forall|j: int| 0 <= j < ds@.len() ==> (#[trigger] ds@[j])@.no_duplicates() && ds@[j]@.to_set().subset_of(dom),
                forall|m: int| 0 <= m < p0.len() ==> dom.contains(#[trigger] p0[m]),
                table_ok(table@, nv@.len(), dom),
                forall|key: Seq<i64>| #[trigger] tval(table@, key) == tval(t0, key) + (if in_slab(key, p0, ds@, j as int) { gval(with@, nv@, v, dv@, key) % word() } else { 0 }),
            decreases d@.len() - j,
        {
            let x = d[j];
            let ghost t1 = table@;
            prefix.push(x);
            proof {
                assert(d@.to_set().contains(x));
                assert forall|m: int| 0 <= m < prefix@.len() implies dom.contains(#[trigger] prefix@[m]) by {
                    if m < i { assert(prefix@[m] == p0[m]); }
                }
            }
            enumerate(with, nv, v, dv, ds, prefix, table, Ghost(dom));
            let ghost p1 = prefix@;
            prefix.pop();
            proof {
                assert(p1 == p0.push(x));
                assert(prefix@ =~= p0);
                assert forall|key: Seq<i64>| #[trigger] tval(table@, key) == tval(t0, key) + (if in_slab(key, p0, ds@, j + 1) { gval(with@, nv@, v, dv@, key) % word() } else { 0 }) by {
                    let a = in_slab(key, p0, ds@, j as int);
                    let b = in_box(key, p1, ds@);
                    let c = in_slab(key, p0, ds@, j + 1);
                    assert(tval(t1, key) == tval(t0, key) + (if a { gval(with@, nv@, v, dv@, key) % word() } else { 0 }));
                    assert(tval(table@, key) == tval(t1, key) + (if b { gval(with@, nv@, v, dv@, key) % word() } else { 0 }));
                    assert(d@.take(j + 1) =~= d@.take(j as int).push(x));
                    if key.len() == ds@.len() && i < key.len() {
                        assert(key.take(i + 1) =~= key.take(i as int).push(key[i as int]));
                        if key.take(i + 1) == p1 {
                            assert(key.take(i as int) =~= p0);
                            assert(key[i as int] == x);
                        }
                        if key.take(i as int) == p0 && key[i as int] == x {
                            assert(key.take(i + 1) =~= p1);
                        }
                    }
                    if a && b {
                        let q = choose|q: int| 0 <= q < d@.take(j as int).len() && d@.take(j as int)[q] == key[i as int];
                        assert(d@[q] == d@[j as int]);
                    }
                    assert(c == (a || b)) by {
                        if c {
                            let t = d@.take(j + 1);
                            let q = choose|q: int| 0 <= q < t.len() && t[q] == key[i as int];
                            if q < j { assert(d@.take(j as int)[q] == key[i as int]); }
                        }
                        if a {
                            let t = d@.take(j as int);
                            let q = choose|q: int| 0 <= q < t.len() && t[q] == key[i as int];
                            assert(d@.take(j + 1)[q] == key[i as int]);
                        }
                        if b {
                            assert(d@.take(j + 1)[j as int] == x);
                        }
                    }
                }
            }
            j = j + 1;
        }
        proof {
            assert forall|key: Seq<i64>| #[trigger] tval(table@, key) == tval(t0, key) + (if in_box(key, p0, ds@) { gval(with@, nv@, v, dv@, key) % word() } else { 0 }) by {
                assert(d@.take(j as int) =~= d@);
                if in_box(key, p0, ds@) {
                    assert(ds@[i as int]@.contains(key[i as int]));
                }
            }
        }
    }
}

// ---------------------------------------------------------------------------
// One elimination step, assembled.

/// A factor with `v` at position `p`, whose keys' values there all lie in
/// `list`, vanishes wherever `v` takes a value outside `list`.
proof fn lemma_fval_outside(f: Factor, p: int, list: Seq<i64>, th: Assign)
    requires
        0 <= p < f.vars@.len(),
        at_pos_in(f, p, list),
        !list.contains(th[f.vars@[p]]),
    ensures
        fval(f, th) == 0,
{
    let key = key_of(f.vars@, th);
    assert forall|e: int| 0 <= e < f.table@.len() implies (#[trigger] f.table@[e]).0@.len() == key.len() ==> f.table@[e].0@[p] != key[p] by {
        if f.table@[e].0@.len() == key.len() {
            assert(list.contains(f.table@[e].0@[p]));
        }
    }
    lemma_tval_absent(f.table@, key, p);
}

/// The new factor's value is the sum over `v` of the product of the factors
/// that mention `v`, modulo the word.
proof fn lemma_new_factor(
    with: Seq<Factor>,
    nv: Seq<u32>,
    v: u32,
    dv: Seq<i64>,
    ds: Seq<Vec<i64>>,
    table: Seq<(Vec<i64>, u64)>,
    dom: Seq<i64>,
    th: Assign,
)
    requires
        with.len() > 0,
        forall|i: int| 0 <= i < with.len() ==> var_covered(#[trigger] with[i], v, dv),
        dom.no_duplicates(),
        dv.no_duplicates(),
        dv.to_set().subset_of(dom.to_set()),
        nv.no_duplicates(),
        forall|u: u32| #[trigger] nv.contains(u) <==> (u != v && in_first(with, with.len() as int, u)),
        ds.len() == nv.len(),
        forall|j: int, i: int| 0 <= j < ds.len() && 0 <= i < with.len() ==> all_pos_in(#[trigger] with[i], nv[j], #[trigger] ds[j]@),
        forall|key: Seq<i64>| #[trigger] tval(table, key) == (if in_box(key, Seq::empty(), ds) { gval(with, nv, v, dv, key) % word() } else { 0 }),
    ensures
        tval(table, key_of(nv, th)) % word() == dsum(dom, at_v(leaf_of(with), th, v)) % word(),
{
    let k = key_of(nv, th);
    let g = at_v(leaf_of(with), th, v);
    assert(k.take(0) =~= Seq::<i64>::empty());
    if in_box(k, Seq::empty(), ds) {
        let ta = assign_of(nv, k);
        assert forall|x: i64| #[trigger] at_v(leaf_of(with), ta, v)(x) == g(x) by {
            assert forall|i: int, u: u32| 0 <= i < with.len() && #[trigger] with[i].vars@.contains(u) implies ta.insert(v, x)[u] == th.insert(v, x)[u] by {
                if u != v {
                    assert(in_first(with, with.len() as int, u));
                    assert(nv.contains(u));
                    let j = choose|j: int| 0 <= j < nv.len() && nv[j] == u;
                    lemma_assign_of(nv, k, j);
                }
            }
            lemma_fprod_agree(with, ta.insert(v, x), th.insert(v, x));
        }
        lemma_dsum_ext(dv, at_v(leaf_of(with), ta, v), g);
        let f0 = with[0];
        assert(var_covered(f0, v, dv));
        let p = choose|p: int| 0 <= p < f0.vars@.len() && f0.vars@[p] == v && #[trigger] at_pos_in(f0, p, dv);
        assert forall|x: i64| dom.contains(x) && !dv.contains(x) implies #[trigger] g(x) == 0 by {
            lemma_fval_outside(f0, p, dv, th.insert(v, x));
            lemma_fprod_zero(with, th.insert(v, x), 0);
        }
        assert forall|x: i64| dv.contains(x) && !dom.contains(x) implies #[trigger] g(x) == 0 by {
            assert(dv.to_set().contains(x));
        }
        lemma_dsum_support(dv, dom, g);
        vstd::arithmetic::div_mod::lemma_mod_twice(gval(with, nv, v, dv, k) as int, word() as int);
    } else {
        let m = choose|m: int| 0 <= m < k.len() && !(#[trigger] ds[m])@.contains(k[m]);
        let u = nv[m];
        assert(nv.contains(u));
        assert(in_first(with, with.len() as int, u));
        let i = choose|i: int| 0 <= i < with.len() && #[trigger] with[i].vars@.contains(u);
        let f = with[i];
        let p = choose|p: int| 0 <= p < f.vars@.len() && f.vars@[p] == u;
        assert(all_pos_in(with[i], nv[m], ds[m]@));
        assert(at_pos_in(f, p, ds[m]@));
        assert forall|x: i64| dom.contains(x) implies #[trigger] g(x) == 0 by {
            assert(th.insert(v, x)[u] == k[m]);
            lemma_fval_outside(f, p, ds[m]@, th.insert(v, x));
            lemma_fprod_zero(with, th.insert(v, x), i);
        }
        lemma_dsum_zero(dom, g);
    }
}

/// Multiply the factors that mention `v` and sum `v` out: the product of the
/// factors afterwards is, at every assignment, the sum over `v`'s values of
/// the product before, modulo the word.
fn eliminate(factors: Vec<Factor>, v: u32, Ghost(dom): Ghost<Seq<i64>>, Ghost(rs): Ghost<Set<u32>>) -> (out: Vec<Factor>)
    requires
        dom.no_duplicates(),
        forall|i: int| 0 <= i < factors@.len() ==> factor_ok(#[trigger] factors@[i], rs) && keys_in(factors@[i], dom.to_set()),
        in_first(factors@, factors@.len() as int, v),
    ensures
        forall|i: int| 0 <= i < out@.len() ==> factor_ok(#[trigger] out@[i], rs.remove(v)) && keys_in(out@[i], dom.to_set()),
        forall|u: u32| u != v && #[trigger] in_first(factors@, factors@.len() as int, u) ==> in_first(out@, out@.len() as int, u),
        forall|th: Assign| #[trigger] fprod(out@, th) % word() == sum_out(v, dom, leaf_of(factors@))(th) % word(),
{
    let ghost fs = factors@;
    let ghost dset = dom.to_set();
    let (with, without) = split(factors, v);
    proof {
        let j = choose|j: int| 0 <= j < fs.len() && #[trigger] fs[j].vars@.contains(v);
        assert(fs[j].vars@.contains(v));
        assert forall|i: int| 0 <= i < with@.len() implies (#[trigger] with@[i]).vars@.contains(v) && keys_in(with@[i], dset) && factor_ok(with@[i], rs) by {
            assert(fs.contains(with@[i]));
        }
    }
    let dv = values_of_var(&with, v, Ghost(dset));
    let nv = union_vars(&with, v);
    proof {
        crate::gpu::plan::lemma_increasing_no_dup(nv@);
        assert forall|i: int, u: u32| 0 <= i < with@.len() && #[trigger] with@[i].vars@.contains(u) implies u == v || nv@.contains(u) by {
            if u != v {
                assert(in_first(with@, with@.len() as int, u));
            }
        }
        assert forall|i: int| 0 <= i < with@.len() implies keys_in(#[trigger] with@[i], dset) by {
            assert(fs.contains(with@[i]));
        }
    }
    let ds = domains_of(&with, &nv, Ghost(dset));
    let mut prefix: Vec<i64> = Vec::new();
    let mut table: Vec<(Vec<i64>, u64)> = Vec::new();
    enumerate(&with, &nv, v, &dv, &ds, &mut prefix, &mut table, Ghost(dset));
    let ghost wv = with@;
    let ghost ov = without@;
    let ghost nvv = nv@;
    let ghost tv = table@;
    let newf = Factor { vars: nv, table };
    let mut out = without;
    out.push(newf);
    proof {
        assert(out@.drop_last() == ov);
        assert(out@.last() == newf);
        assert forall|key: Seq<i64>| #[trigger] tval(tv, key) == (if in_box(key, Seq::empty(), ds@) { gval(wv, nvv, v, dv@, key) % word() } else { 0 }) by {
            assert(tval(Seq::<(Vec<i64>, u64)>::empty(), key) == 0);
        }
        assert forall|th: Assign| #[trigger] fprod(out@, th) % word() == sum_out(v, dom, leaf_of(fs))(th) % word() by {
            lemma_new_factor(wv, nvv, v, dv@, ds@, tv, dom, th);
            let c = fprod(ov, th);
            let t = dsum(dom, at_v(leaf_of(wv), th, v));
            let nf = fval(newf, th);
            assert(fprod(out@, th) == c * nf);
            assert forall|x: i64| #[trigger] at_v(leaf_of(fs), th, v)(x) == c * at_v(leaf_of(wv), th, v)(x) by {
                lemma_fprod_indep(ov, th, v, x);
                let a = fprod(wv, th.insert(v, x));
                assert(fprod(fs, th.insert(v, x)) == a * c);
                assert(a * c == c * a) by (nonlinear_arith);
            }
            lemma_dsum_scale(dom, at_v(leaf_of(wv), th, v), c, at_v(leaf_of(fs), th, v));
            assert(sum_out(v, dom, leaf_of(fs))(th) == c * t);
            vstd::arithmetic::div_mod::lemma_mul_mod_noop_right(c as int, nf as int, word() as int);
            vstd::arithmetic::div_mod::lemma_mul_mod_noop_right(c as int, t as int, word() as int);
        }
        assert forall|i: int| 0 <= i < out@.len() implies factor_ok(#[trigger] out@[i], rs.remove(v)) && keys_in(out@[i], dset) by {
            if i < ov.len() {
                assert(out@[i] == ov[i]);
                assert(fs.contains(ov[i]));
                assert(!ov[i].vars@.contains(v));
                assert forall|u: u32| ov[i].vars@.to_set().contains(u) implies rs.remove(v).contains(u) by {
                    assert(ov[i].vars@.contains(u));
                }
            } else {
                assert(out@[i] == newf);
                assert forall|u: u32| nvv.to_set().contains(u) implies rs.remove(v).contains(u) by {
                    assert(nvv.contains(u));
                    let q = choose|q: int| 0 <= q < wv.len() && #[trigger] wv[q].vars@.contains(u);
                    assert(factor_ok(wv[q], rs));
                    assert(wv[q].vars@.to_set().contains(u));
                }
                assert forall|e: int, j: int| 0 <= e < tv.len() && 0 <= j < tv[e].0@.len() implies dset.contains(#[trigger] tv[e].0@[j]) by {
                    assert(table_ok(tv, nvv.len(), dset));
                    assert(tv[e].0@.len() == nvv.len());
                }
            }
        }
        assert forall|u: u32| u != v && #[trigger] in_first(fs, fs.len() as int, u) implies in_first(out@, out@.len() as int, u) by {
            let j = choose|j: int| 0 <= j < fs.len() && #[trigger] fs[j].vars@.contains(u);
            if wv.contains(fs[j]) {
                let q = choose|q: int| 0 <= q < wv.len() && wv[q] == fs[j];
                assert(wv[q].vars@.contains(u));
                assert(in_first(wv, wv.len() as int, u));
                assert(nvv.contains(u));
                assert(out@[ov.len() as int].vars@.contains(u));
            } else {
                assert(ov.contains(fs[j]));
                let q = choose|q: int| 0 <= q < ov.len() && ov[q] == fs[j];
                assert(out@[q] == ov[q]);
                assert(out@[q].vars@.contains(u));
            }
        }
    }
    out
}

// ---------------------------------------------------------------------------
// The whole contraction.

proof fn lemma_remove_to_set(r: Seq<u32>, k: int)
    requires
        r.no_duplicates(),
        0 <= k < r.len(),
    ensures
        r.remove(k).no_duplicates(),
        r.remove(k).to_set() == r.to_set().remove(r[k]),
        !r.remove(k).contains(r[k]),
{
    let s = r.remove(k);
    assert forall|a: int, b: int| 0 <= a < s.len() && 0 <= b < s.len() && a != b implies s[a] != s[b] by {
        let a2 = if a < k { a } else { a + 1 };
        let b2 = if b < k { b } else { b + 1 };
        assert(s[a] == r[a2] && s[b] == r[b2]);
    }
    assert forall|y: u32| s.contains(y) <==> (r.contains(y) && y != r[k]) by {
        if s.contains(y) {
            let q = choose|q: int| 0 <= q < s.len() && s[q] == y;
            let q2 = if q < k { q } else { q + 1 };
            assert(r[q2] == y);
        }
        if r.contains(y) && y != r[k] {
            let q = choose|q: int| 0 <= q < r.len() && r[q] == y;
            if q < k { assert(s[q] == y); } else { assert(s[q - 1] == y); }
        }
    }
    assert(s.to_set() =~= r.to_set().remove(r[k]));
}

/// A value of one relation is a value of the relations.
proof fn lemma_flat_contains(rels: Seq<Seq<Seq<i64>>>, a: int, x: i64)
    requires
        0 <= a < rels.len(),
        flat_rows(rels[a]).contains(x),
    ensures
        flat(rels).contains(x),
    decreases rels.len(),
{
    let p = rels.drop_last();
    if a < rels.len() - 1 {
        lemma_flat_contains(p, a, x);
        let i = choose|i: int| 0 <= i < flat(p).len() && flat(p)[i] == x;
        assert(flat(rels)[i] == x);
    } else {
        let i = choose|i: int| 0 <= i < flat_rows(rels[a]).len() && flat_rows(rels[a])[i] == x;
        assert(flat(rels)[flat(p).len() + i] == x);
    }
}

/// The sum of a table's counts, modulo the word, when every key is empty.
fn total(t: &Vec<(Vec<i64>, u64)>) -> (r: u64)
    requires
        forall|e: int| 0 <= e < t@.len() ==> (#[trigger] t@[e]).0@.len() == 0,
    ensures
        r as nat == tval(t@, Seq::empty()) % word(),
{
    let mut r: u64 = 0;
    let mut i: usize = 0;
    while i < t.len()
        invariant
            i <= t@.len(),
            forall|e: int| 0 <= e < t@.len() ==> (#[trigger] t@[e]).0@.len() == 0,
            r as nat == tval(t@.take(i as int), Seq::empty()) % word(),
        decreases t@.len() - i,
    {
        let c = t[i].1;
        proof {
            let before = tval(t@.take(i as int), Seq::empty());
            assert(t@.take(i + 1).drop_last() =~= t@.take(i as int));
            assert(t@.take(i + 1).last() == t@[i as int]);
            assert(t@[i as int].0@ =~= Seq::<i64>::empty());
            vstd::arithmetic::div_mod::lemma_add_mod_noop(before as int, c as int, word() as int);
        }
        r = r.wrapping_add(c);
        i = i + 1;
    }
    assert(t@.take(i as int) =~= t@);
    r
}

/// Count the query's satisfying assignments by tensor contraction, following
/// the min-degree elimination order; `relations[i]` are the tuples of
/// `q.atoms[i]`. The count is the nested-loop join count over the values that
/// occur in the relations, in `u64` arithmetic (modulo 2^64).
pub fn contract_count(q: &Query, relations: &[Vec<Vec<i64>>]) -> (r: u64)
    requires
        relations@.len() == q.atoms@.len(),
        forall|a: int, t: int| 0 <= a < relations@.len() && 0 <= t < relations@[a]@.len() ==> (#[trigger] relations@[a]@[t])@.len() == q.atoms@[a].vars@.len(),
    ensures
        r as nat == join_count(q.atoms@, rel_views(relations@)) % word(),
{
    let ghost atoms = q.atoms@;
    let ghost rels = rel_views(relations@);
    let ghost dom = active_domain(rels);
    let ghost dset = dom.to_set();
    let ghost av = all_vars(atoms);
    proof {
        lemma_dedup_values(flat(rels));
    }
    let mut factors: Vec<Factor> = Vec::new();
    let mut a: usize = 0;
    while a < q.atoms.len()
        invariant
            a <= atoms.len(),
            atoms == q.atoms@,
            relations@.len() == atoms.len(),
            rels == rel_views(relations@),
            dset == dom.to_set(),
            dom == active_domain(rels),
            dset == flat(rels).to_set(),
            av == all_vars(atoms),
            forall|a: int, t: int| 0 <= a < relations@.len() && 0 <= t < relations@[a]@.len() ==> (#[trigger] relations@[a]@[t])@.len() == atoms[a].vars@.len(),
            factors@.len() == a,
            forall|i: int| 0 <= i < a ==> (#[trigger] factors@[i]).vars@ == atoms[i].vars@,
            forall|i: int| 0 <= i < a ==> factor_ok(#[trigger] factors@[i], av) && keys_in(factors@[i], dset),
            forall|th: Assign| #[trigger] fprod(factors@, th) == weight(atoms.take(a as int), rels, th),
        decreases atoms.len() - a,
    {
        let tuples = &relations[a];
        let f = from_atom(&q.atoms[a].vars, tuples);
        let ghost f0 = factors@;
        let ghost rows = tuples@.map_values(|t: Vec<i64>| t@);
        proof {
            assert(rels[a as int] =~= rows);
        }
        factors.push(f);
        proof {
            assert(factors@.drop_last() == f0);
            assert(atoms.take(a + 1).drop_last() =~= atoms.take(a as int));
            assert(atoms.take(a + 1).last() == atoms[a as int]);
            assert forall|th: Assign| #[trigger] fprod(factors@, th) == weight(atoms.take(a + 1), rels, th) by {
                let key = key_of(atoms[a as int].vars@, th);
                assert(tval(f.table@, key) == mult(tuples@.map_values(|t: Vec<i64>| t@), key));
                assert(fval(f, th) == mult(rows, key));
                assert(fprod(factors@, th) == fprod(f0, th) * fval(f, th));
                assert(fprod(f0, th) == weight(atoms.take(a as int), rels, th));
                assert(weight(atoms.take(a + 1), rels, th) == weight(atoms.take(a as int), rels, th) * mult(rels[a as int], key));
            }
            assert forall|i: int| 0 <= i < a + 1 implies factor_ok(#[trigger] factors@[i], av) && keys_in(factors@[i], dset) by {
                if i == a {
                    assert(factors@[i] == f);
                    assert forall|u: u32| f.vars@.to_set().contains(u) implies av.contains(u) by {
                        assert(atoms[a as int].vars@.contains(u));
                    }
                    assert forall|e: int, j: int| 0 <= e < f.table@.len() && 0 <= j < f.table@[e].0@.len() implies dset.contains(#[trigger] f.table@[e].0@[j]) by {
                        lemma_flat_contains(rels, a as int, f.table@[e].0@[j]);
                    }
                } else {
                    assert(factors@[i] == f0[i]);
                }
            }
        }
        a = a + 1;
    }
    let c = crate::gpu::contraction::contraction_order(q);
    let order = c.order;
    let ghost g0 = crate::gpu::contraction::interaction(atoms);
    let ghost qvs = query_vars(atoms);
    let ghost mut rr: Seq<u32> = qvs;
    proof {
        assert(atoms.take(a as int) =~= atoms);
        crate::gpu::contraction::lemma_order_covers(g0, order@);
        assert(g0.dom() =~= all_vars(atoms));
        assert(order@.no_duplicates() && order@.to_set() == all_vars(atoms));
        assert(qvs.no_duplicates() && qvs.to_set() == all_vars(atoms));
        assert(order@.take(0) =~= Seq::<u32>::empty());
        assert(g0.dom() =~= all_vars(atoms));
        lemma_tot_ext(qvs, dom, Map::empty(), weight_of(atoms, rels), leaf_of(factors@));
        assert forall|u: u32| rr.contains(u) implies in_first(factors@, factors@.len() as int, u) by {
            assert(rr.to_set().contains(u));
            let i = choose|i: int| 0 <= i < atoms.len() && (#[trigger] atoms[i]).vars@.contains(u);
            assert(factors@[i].vars@.contains(u));
        }
    }
    let mut i: usize = 0;
    while i < order.len()
        invariant
            i <= order@.len(),
            crate::gpu::contraction::min_degree_order(g0, order@),
            rr.no_duplicates(),
            rr.to_set() == crate::gpu::contraction::elim_run(g0, order@.take(i as int)).dom(),
            dom.no_duplicates(),
            dset == dom.to_set(),
            forall|j: int| 0 <= j < factors@.len() ==> factor_ok(#[trigger] factors@[j], rr.to_set()) && keys_in(factors@[j], dset),
            forall|u: u32| rr.contains(u) ==> #[trigger] in_first(factors@, factors@.len() as int, u),
            tot(qvs, dom, Map::empty(), weight_of(atoms, rels)) % word() == tot(rr, dom, Map::empty(), leaf_of(factors@)) % word(),
        decreases order@.len() - i,
    {
        let v = order[i];
        let ghost g = crate::gpu::contraction::elim_run(g0, order@.take(i as int));
        let ghost f0 = factors@;
        proof {
            assert(crate::gpu::contraction::is_min_degree(g, v));
            assert(rr.to_set().contains(v));
        }
        let ghost k = rr.index_of(v);
        proof {
            assert(rr.contains(v));
            assert(in_first(f0, f0.len() as int, v));
        }
        factors = eliminate(factors, v, Ghost(dom), Ghost(rr.to_set()));
        proof {
            let r1 = rr.remove(k);
            let leaf = leaf_of(f0);
            lemma_remove_to_set(rr, k);
            lemma_tot_pull(rr, k, dom, Map::empty(), leaf);
            assert forall|x: i64| #[trigger] pulled(rr, k, dom, Map::empty(), leaf)(x) == pushed(r1, v, dom, Map::empty(), leaf)(x) by {
            }
            lemma_dsum_ext(dom, pulled(rr, k, dom, Map::empty(), leaf), pushed(r1, v, dom, Map::empty(), leaf));
            lemma_tot_push(r1, v, dom, Map::empty(), leaf);
            assert forall|t: Assign| #[trigger] sum_out(v, dom, leaf)(t) % word() == leaf_of(factors@)(t) % word() by {
                assert(fprod(factors@, t) % word() == sum_out(v, dom, leaf_of(f0))(t) % word());
            }
            lemma_tot_mod(r1, dom, Map::empty(), sum_out(v, dom, leaf), leaf_of(factors@));
            assert(order@.take(i + 1).drop_last() =~= order@.take(i as int));
            assert(order@.take(i + 1).last() == v);
            assert(crate::gpu::contraction::elim_run(g0, order@.take(i + 1)).dom() =~= r1.to_set());
            assert forall|u: u32| r1.contains(u) implies #[trigger] in_first(factors@, factors@.len() as int, u) by {
                assert(r1.to_set().contains(u));
                assert(rr.to_set().contains(u));
                assert(in_first(f0, f0.len() as int, u));
            }
            rr = r1;
        }
        i = i + 1;
    }
    proof {
        assert(order@.take(i as int) =~= order@);
        assert(rr.to_set() =~= Set::<u32>::empty());
        if rr.len() > 0 {
            assert(rr.to_set().contains(rr[0]));
        }
        assert(rr.len() == 0);
        assert(tot(rr, dom, Map::empty(), leaf_of(factors@)) == fprod(factors@, Map::empty()));
    }
    let ghost th0: Assign = Map::empty();
    let mut r: u64 = 1;
    let mut j: usize = 0;
    while j < factors.len()
        invariant
            j <= factors@.len(),
            forall|j: int| 0 <= j < factors@.len() ==> factor_ok(#[trigger] factors@[j], Set::<u32>::empty()),
            r as nat == fprod(factors@.take(j as int), th0) % word(),
        decreases factors@.len() - j,
    {
        let f = &factors[j];
        proof {
            assert(factor_ok(factors@[j as int], Set::<u32>::empty()));
            if f.vars@.len() > 0 {
                assert(f.vars@.to_set().contains(f.vars@[0]));
            }
            assert(key_of(f.vars@, th0) =~= Seq::<i64>::empty());
        }
        let c = total(&f.table);
        proof {
            let a = fprod(factors@.take(j as int), th0);
            let b = fval(factors@[j as int], th0);
            assert(factors@.take(j + 1).drop_last() =~= factors@.take(j as int));
            assert(factors@.take(j + 1).last() == factors@[j as int]);
            vstd::arithmetic::div_mod::lemma_mul_mod_noop(a as int, b as int, word() as int);
        }
        r = r.wrapping_mul(c);
        j = j + 1;
    }
    proof {
        assert(factors@.take(j as int) =~= factors@);
        vstd::arithmetic::div_mod::lemma_mod_twice(tot(qvs, dom, Map::empty(), weight_of(atoms, rels)) as int, word() as int);
    }
    r
}

} // verus!
