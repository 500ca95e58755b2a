//! Finite sums over index ranges and the facts about them that the counting
//! proofs use.
use vstd::prelude::*;

verus! {

/// `f(0) + f(1) + ... + f(n-1)`.
pub open spec fn sum(n: nat, f: spec_fn(int) -> int) -> int
    decreases n,
{
    if n == 0 {
        0
    } else {
        sum((n - 1) as nat, f) + f(n - 1)
    }
}

/// Sums agree when the summands agree on the range.
pub proof fn lemma_sum_ext(n: nat, f: spec_fn(int) -> int, g: spec_fn(int) -> int)
    requires
        forall|x: int| 0 <= x < n ==> #[trigger] f(x) == g(x),
    ensures
        sum(n, f) == sum(n, g),
    decreases n,
{
    if n > 0 {
        lemma_sum_ext((n - 1) as nat, f, g);
    }
}

/// A sum of summands in `[0, b]` lies in `[0, n * b]`.
pub proof fn lemma_sum_bounds(n: nat, f: spec_fn(int) -> int, b: int)
    requires
        forall|x: int| 0 <= x < n ==> 0 <= #[trigger] f(x) <= b,
    ensures
        0 <= sum(n, f) <= n * b,
    decreases n,
{
    if n == 0 {
        assert(n * b == 0) by (nonlinear_arith) requires n == 0;
    } else {
        lemma_sum_bounds((n - 1) as nat, f, b);
        assert(0 <= f(n - 1) <= b);
        assert((n - 1) * b + b == n * b) by (nonlinear_arith);
    }
}

/// A sum of non-negative summands is non-negative.
pub proof fn lemma_sum_nonneg(n: nat, f: spec_fn(int) -> int)
    requires
        forall|x: int| 0 <= x < n ==> 0 <= #[trigger] f(x),
    ensures
        0 <= sum(n, f),
    decreases n,
{
    if n > 0 {
        lemma_sum_nonneg((n - 1) as nat, f);
    }
}

/// Partial sums of non-negative summands grow.
pub proof fn lemma_sum_mono(m: nat, n: nat, f: spec_fn(int) -> int)
    requires
        m <= n,
        forall|x: int| 0 <= x < n ==> 0 <= #[trigger] f(x),
    ensures
        sum(m, f) <= sum(n, f),
    decreases n - m,
{
    if m < n {
        lemma_sum_mono(m, (n - 1) as nat, f);
    }
}

/// Sum of the pointwise sum.
pub proof fn lemma_sum_add(n: nat, f: spec_fn(int) -> int, g: spec_fn(int) -> int, k: spec_fn(int) -> int)
    requires
        forall|x: int| 0 <= x < n ==> #[trigger] k(x) == f(x) + g(x),
    ensures
        sum(n, k) == sum(n, f) + sum(n, g),
    decreases n,
{
    if n > 0 {
        lemma_sum_add((n - 1) as nat, f, g, k);
    }
}

/// A sum of zeros is zero.
pub proof fn lemma_sum_zero(n: nat, f: spec_fn(int) -> int)
    requires
        forall|x: int| 0 <= x < n ==> #[trigger] f(x) == 0,
    ensures
        sum(n, f) == 0,
    decreases n,
{
    if n > 0 {
        lemma_sum_zero((n - 1) as nat, f);
    }
}

/// Exchanging the order of a double sum.
pub proof fn lemma_sum_swap(n: nat, m: nat, f: spec_fn(int, int) -> int)
    ensures
        sum(n, |x: int| sum(m, |y: int| f(x, y))) == sum(m, |y: int| sum(n, |x: int| f(x, y))),
    decreases n,
{
    if n == 0 {
        lemma_sum_zero(m, |y: int| sum(n, |x: int| f(x, y)));
    } else {
        lemma_sum_swap((n - 1) as nat, m, f);
        let g = |y: int| sum((n - 1) as nat, |x: int| f(x, y));
        let h = |y: int| f(n - 1, y);
        let full = |y: int| sum(n, |x: int| f(x, y));
        assert forall|y: int| 0 <= y < m implies #[trigger] full(y) == g(y) + h(y) by {
            assert(sum(n, |x: int| f(x, y)) == sum((n - 1) as nat, |x: int| f(x, y)) + f(n - 1, y));
        }
        lemma_sum_add(m, g, h, full);
        let outer = |x: int| sum(m, |y: int| f(x, y));
        assert(sum(n, outer) == sum((n - 1) as nat, outer) + outer(n - 1));
        assert(outer(n - 1) == sum(m, h)) by {
            lemma_sum_ext(m, |y: int| f(n - 1, y), h);
        }
        assert(sum((n - 1) as nat, outer) == sum(m, g));
        assert(sum(m, full) == sum(m, g) + sum(m, h));
        assert(sum(n, outer) == sum(m, full));
    }
}

/// A sum whose only non-zero summand sits at `c`.
pub proof fn lemma_sum_single(n: nat, f: spec_fn(int) -> int, c: int)
    requires
        forall|x: int| 0 <= x < n && x != c ==> #[trigger] f(x) == 0,
    ensures
        sum(n, f) == if 0 <= c < n { f(c) } else { 0 },
    decreases n,
{
    if n > 0 {
        lemma_sum_single((n - 1) as nat, f, c);
    }
}

} // verus!

verus! {

/// `f2(x, 0) + ... + f2(x, m-1)`.
pub open spec fn rowsum(m: nat, f2: spec_fn(int, int) -> int, x: int) -> int {
    sum(m, |y: int| f2(x, y))
}

/// `f2(0, y) + ... + f2(n-1, y)`.
pub open spec fn colsum(n: nat, f2: spec_fn(int, int) -> int, y: int) -> int {
    sum(n, |x: int| f2(x, y))
}

/// Exchanging the order of a double sum, stated over named rows and columns.
pub proof fn lemma_sum_swap2(n: nat, m: nat, f2: spec_fn(int, int) -> int)
    ensures
        sum(n, |x: int| rowsum(m, f2, x)) == sum(m, |y: int| colsum(n, f2, y)),
    decreases n,
{
    if n == 0 {
        lemma_sum_zero(m, |y: int| colsum(n, f2, y));
    } else {
        lemma_sum_swap2((n - 1) as nat, m, f2);
        assert forall|y: int| 0 <= y < m implies #[trigger] colsum(n, f2, y) == colsum((n - 1) as nat, f2, y) + f2(n - 1, y) by {
        }
        lemma_sum_add(m, |y: int| colsum((n - 1) as nat, f2, y), |y: int| f2(n - 1, y), |y: int| colsum(n, f2, y));
    }
}

} // verus!

verus! {

/// The set of a pushed sequence.
pub proof fn lemma_push_to_set<A>(s: Seq<A>, x: A)
    ensures
        s.push(x).to_set() == s.to_set().insert(x),
{
    assert forall|y: A| s.push(x).to_set().contains(y) <==> s.to_set().insert(x).contains(y) by {
        if s.push(x).contains(y) {
            let k = choose|k: int| 0 <= k < s.push(x).len() && s.push(x)[k] == y;
            if k < s.len() {
                assert(s[k] == y);
            }
        }
        if s.contains(y) {
            let k = choose|k: int| 0 <= k < s.len() && s[k] == y;
            assert(s.push(x)[k] == y);
        }
        if y == x {
            assert(s.push(x)[s.len() as int] == x);
        }
    }
    assert(s.push(x).to_set() =~= s.to_set().insert(x));
}

} // verus!
