//! Partitioning interfaces: radix hash-partition of a relation by its key
//! columns, the shard-local binary join built on it, and the hypercube
//! triangle count. Each partitioned computation equals the whole one.
use vstd::prelude::*;
use vstd::multiset::Multiset;
use crate::math::{sum, rowsum, colsum, lemma_sum_swap2, lemma_sum_ext, lemma_sum_bounds, lemma_sum_mono, lemma_sum_single, lemma_sum_nonneg, lemma_sum_zero};
use vstd::wrapping::u64_specs::{wrapping_add, wrapping_mul};

verus! {

/// The splitmix-style finalizer used for sharding.
#[verifier::opaque]
pub open spec fn hash_spec(x: i64) -> u64 {
    let z0 = wrapping_add(x as u64, 0x9E3779B97F4A7C15u64);
    let z1 = wrapping_mul(z0 ^ (z0 >> 30u64), 0xBF58476D1CE4E5B9u64);
    let z2 = wrapping_mul(z1 ^ (z1 >> 27u64), 0x94D049BB133111EBu64);
    z2 ^ (z2 >> 31u64)
}

fn hash(x: i64) -> (h: u64)
    ensures
        h == hash_spec(x),
{
    let mut z = (x as u64).wrapping_add(0x9E3779B97F4A7C15u64);
    z = (z ^ (z >> 30u64)).wrapping_mul(0xBF58476D1CE4E5B9u64);
    z = (z ^ (z >> 27u64)).wrapping_mul(0x94D049BB133111EBu64);
    proof { reveal(hash_spec); }
    z ^ (z >> 31u64)
}

/// Which of `p` slots a value maps to.
pub open spec fn slot_spec(x: i64, p: nat) -> nat
    recommends
        p > 0,
{
    (hash_spec(x) as nat % p) as nat
}

/// Which of `p` slots a value maps to.
pub fn slot(x: i64, p: usize) -> (s: usize)
    requires
        p > 0,
    ensures
        s == slot_spec(x, p as nat),
        s < p,
{
    (hash(x) % (p as u64)) as usize
}

/// One FNV-style combining step.
#[verifier::opaque]
pub open spec fn fnv_step(h: u64, x: u64) -> u64 {
    wrapping_mul(h, 1099511628211u64) ^ x
}

/// The combined hash of a tuple's key columns (FNV-style fold).
pub open spec fn key_hash(t: Seq<i64>, cols: Seq<usize>) -> u64
    decreases cols.len(),
{
    if cols.len() == 0 {
        0
    } else {
        fnv_step(key_hash(t, cols.drop_last()), hash_spec(t[cols.last() as int]))
    }
}

/// The shard a tuple is sent to.
pub open spec fn shard_of(t: Seq<i64>, cols: Seq<usize>, k: nat) -> nat
    recommends
        k > 0,
{
    (key_hash(t, cols) as nat % k) as nat
}

/// The tuples of a relation, as plain sequences.
pub open spec fn rows(tuples: Seq<Vec<i64>>) -> Seq<Seq<i64>> {
    tuples.map_values(|t: Vec<i64>| t@)
}

/// Every key column is a valid index of every tuple.
pub open spec fn keys_in_range(tuples: Seq<Seq<i64>>, cols: Seq<usize>) -> bool {
    forall|i: int, c: int| 0 <= i < tuples.len() && 0 <= c < cols.len() ==> cols[c] < tuples[i].len()
}

/// The tuples (in input order) that land in shard `j`.
pub open spec fn shard(tuples: Seq<Seq<i64>>, cols: Seq<usize>, k: nat, j: nat) -> Seq<Seq<i64>> {
    tuples.filter(|t: Seq<i64>| shard_of(t, cols, k) == j)
}

/// Partition tuples into `k` shards by the hash of `key_cols`; shard `j` holds,
/// in input order, exactly the tuples whose key hashes to `j`.
pub fn hash_partition(tuples: &[Vec<i64>], key_cols: &[usize], k: usize) -> (parts: Vec<Vec<Vec<i64>>>)
    requires
        k > 0,
        keys_in_range(rows(tuples@), key_cols@),
    ensures
        parts@.len() == k,
        forall|j: int| 0 <= j < k ==> #[trigger] rows(parts@[j]@) == shard(rows(tuples@), key_cols@, k as nat, j as nat),
{
    let mut parts: Vec<Vec<Vec<i64>>> = Vec::new();
    let mut j: usize = 0;
    while j < k
        invariant
            j <= k,
            parts@.len() == j,
            forall|q: int| 0 <= q < j ==> #[trigger] parts@[q]@.len() == 0,
        decreases k - j,
    {
        parts.push(Vec::new());
        j = j + 1;
    }
    proof {
        assert forall|q: int| 0 <= q < k implies #[trigger] rows(parts@[q]@) == shard(rows(tuples@).take(0), key_cols@, k as nat, q as nat) by {
            assert(rows(parts@[q]@) =~= Seq::<Seq<i64>>::empty());
            assert(rows(tuples@).take(0) =~= Seq::<Seq<i64>>::empty());
            reveal_with_fuel(Seq::filter, 1);
        }
    }
    let mut i: usize = 0;
    while i < tuples.len()
        invariant
            i <= tuples@.len(),
            k > 0,
            keys_in_range(rows(tuples@), key_cols@),
            parts@.len() == k,
            forall|q: int| 0 <= q < k ==> #[trigger] rows(parts@[q]@) == shard(rows(tuples@).take(i as int), key_cols@, k as nat, q as nat),
        decreases tuples@.len() - i,
    {
        let t = &tuples[i];
        let mut h: u64 = 0;
        let mut c: usize = 0;
        while c < key_cols.len()
            invariant
                c <= key_cols@.len(),
                i < tuples@.len(),
                t == tuples@[i as int],
                keys_in_range(rows(tuples@), key_cols@),
                h == key_hash(t@, key_cols@.take(c as int)),
            decreases key_cols@.len() - c,
        {
            assert(key_cols@.take(c + 1).drop_last() =~= key_cols@.take(c as int));
            let col = key_cols[c];
            assert(rows(tuples@)[i as int] == t@);
            h = h.wrapping_mul(1099511628211u64) ^ hash(t[col]);
            proof { reveal(fnv_step); }
            c = c + 1;
        }
        assert(key_cols@.take(key_cols@.len() as int) =~= key_cols@);
        let dst = (h % (k as u64)) as usize;
        let ghost old_parts = parts@;
        let mut part: Vec<Vec<i64>> = Vec::new();
        parts.set_and_swap(dst, &mut part);
        let tc = t.clone();
        assert(tc@ =~= t@);
        part.push(tc);
        parts.set(dst, part);
        proof {
            let pre = rows(tuples@).take(i as int);
            let post = rows(tuples@).take(i + 1);
            assert(post.drop_last() =~= pre);
            assert forall|q: int| 0 <= q < k implies #[trigger] rows(parts@[q]@) == shard(post, key_cols@, k as nat, q as nat) by {
                reveal_with_fuel(Seq::filter, 1);
                assert(post.last() == t@);
                if q == dst {
                    assert(rows(parts@[q]@) =~= rows(old_parts[q]@).push(t@));
                } else {
                    assert(parts@[q] == old_parts[q]);
                }
            }
        }
        i = i + 1;
    }
    assert(rows(tuples@).take(tuples@.len() as int) =~= rows(tuples@));
    parts
}

/// The join rows produced by one `r` tuple against `s`.
pub open spec fn matches_of(tr: Seq<i64>, s: Seq<Seq<i64>>, r_key: usize, s_key: usize) -> Seq<(i64, i64, i64)>
    decreases s.len(),
{
    if s.len() == 0 {
        Seq::empty()
    } else {
        let prev = matches_of(tr, s.drop_last(), r_key, s_key);
        let ts = s.last();
        if ts[s_key as int] == tr[r_key as int] {
            prev.push((tr[0], tr[r_key as int], ts[1 - s_key]))
        } else {
            prev
        }
    }
}

/// The binary join `r ⋈ s` on `r[r_key] == s[s_key]`, rows in `r`-major,
/// `s`-minor order: `(r[0], key, s[1 - s_key])`.
pub open spec fn join_spec(r: Seq<Seq<i64>>, s: Seq<Seq<i64>>, r_key: usize, s_key: usize) -> Seq<(i64, i64, i64)>
    decreases r.len(),
{
    if r.len() == 0 {
        Seq::empty()
    } else {
        join_spec(r.drop_last(), s, r_key, s_key) + matches_of(r.last(), s, r_key, s_key)
    }
}

/// Shapes the join needs: `r` tuples index `0` and `r_key`, `s` tuples are
/// binary and `s_key` is `0` or `1`.
pub open spec fn join_shapes(r: Seq<Seq<i64>>, s: Seq<Seq<i64>>, r_key: usize, s_key: usize) -> bool {
    &&& s_key <= 1
    &&& forall|i: int| 0 <= i < r.len() ==> r_key < #[trigger] r[i].len() && 0 < r[i].len()
    &&& forall|i: int| 0 <= i < s.len() ==> 2 <= #[trigger] s[i].len()
}

/// The whole equi-join of `r` and `s` on `r[r_key] == s[s_key]`: one
/// `(r[0], key, other column of s)` per matching pair, in nested-loop order.
pub fn binary_join(r: &[Vec<i64>], s: &[Vec<i64>], r_key: usize, s_key: usize) -> (out: Vec<(i64, i64, i64)>)
    requires
        join_shapes(rows(r@), rows(s@), r_key, s_key),
    ensures
        out@ == join_spec(rows(r@), rows(s@), r_key, s_key),
{
    let mut out: Vec<(i64, i64, i64)> = Vec::new();
    let mut i: usize = 0;
    while i < r.len()
        invariant
            i <= r@.len(),
            join_shapes(rows(r@), rows(s@), r_key, s_key),
            out@ == join_spec(rows(r@).take(i as int), rows(s@), r_key, s_key),
        decreases r@.len() - i,
    {
        let tr = &r[i];
        let ghost before = out@;
        let mut j: usize = 0;
        while j < s.len()
            invariant
                j <= s@.len(),
                i < r@.len(),
                tr == r@[i as int],
                join_shapes(rows(r@), rows(s@), r_key, s_key),
                out@ == before + matches_of(tr@, rows(s@).take(j as int), r_key, s_key),
            decreases s@.len() - j,
        {
            let ts = &s[j];
            assert(rows(s@).take(j + 1).drop_last() =~= rows(s@).take(j as int));
            assert(rows(s@)[j as int] == ts@);
            assert(rows(r@)[i as int] == tr@);
            if ts[s_key] == tr[r_key] {
                out.push((tr[0], tr[r_key], ts[1 - s_key]));
            }
            proof {
                assert(rows(s@).take(j + 1).last() == ts@);
            }
            j = j + 1;
        }
        proof {
            assert(rows(s@).take(s@.len() as int) =~= rows(s@));
            assert(rows(r@).take(i + 1).drop_last() =~= rows(r@).take(i as int));
            assert(rows(r@).take(i + 1).last() == tr@);
        }
        i = i + 1;
    }
    assert(rows(r@).take(r@.len() as int) =~= rows(r@));
    out
}

/// Concatenation of the shard-local joins over shards `0..n`.
pub open spec fn sharded_join(r: Seq<Seq<i64>>, s: Seq<Seq<i64>>, r_key: usize, s_key: usize, k: nat, n: nat) -> Seq<(i64, i64, i64)>
    decreases n,
{
    if n == 0 {
        Seq::empty()
    } else {
        sharded_join(r, s, r_key, s_key, k, (n - 1) as nat) + join_spec(
            shard(r, seq![r_key], k, (n - 1) as nat),
            shard(s, seq![s_key], k, (n - 1) as nat),
            r_key,
            s_key,
        )
    }
}

proof fn lemma_filter_keeps(r: Seq<Seq<i64>>, p: spec_fn(Seq<i64>) -> bool, good: spec_fn(Seq<i64>) -> bool)
    requires
        forall|i: int| 0 <= i < r.len() ==> good(#[trigger] r[i]),
    ensures
        forall|i: int| 0 <= i < r.filter(p).len() ==> good(#[trigger] r.filter(p)[i]),
    decreases r.len(),
{
    reveal_with_fuel(Seq::filter, 1);
    if r.len() > 0 {
        lemma_filter_keeps(r.drop_last(), p, good);
        assert forall|i: int| 0 <= i < r.drop_last().len() implies good(#[trigger] r.drop_last()[i]) by {
            assert(r.drop_last()[i] == r[i]);
        }
        let f = r.drop_last().filter(p);
        assert(good(r[r.len() - 1]));
        if p(r.last()) {
            assert(r.filter(p) == f.push(r.last()));
            assert forall|i: int| 0 <= i < r.filter(p).len() implies good(#[trigger] r.filter(p)[i]) by {
                if i < f.len() {
                    assert(r.filter(p)[i] == f[i]);
                }
            }
        } else {
            assert(r.filter(p) == f);
        }
    }
}

proof fn lemma_shard_shapes(r: Seq<Seq<i64>>, s: Seq<Seq<i64>>, r_key: usize, s_key: usize, k: nat, j: nat)
    requires
        join_shapes(r, s, r_key, s_key),
    ensures
        join_shapes(shard(r, seq![r_key], k, j), shard(s, seq![s_key], k, j), r_key, s_key),
{
    lemma_filter_keeps(r, |t: Seq<i64>| shard_of(t, seq![r_key], k) == j, |t: Seq<i64>| r_key < t.len() && 0 < t.len());
    lemma_filter_keeps(s, |t: Seq<i64>| shard_of(t, seq![s_key], k) == j, |t: Seq<i64>| 2 <= t.len());
}

/// Radix-partitioned binary join: partition both sides by the join key into
/// `k` shards, join each shard locally, and concatenate.
pub fn partitioned_binary_join(
    r: &[Vec<i64>],
    s: &[Vec<i64>],
    r_key: usize,
    s_key: usize,
    k: usize,
) -> (out: Vec<(i64, i64, i64)>)
    requires
        k > 0,
        join_shapes(rows(r@), rows(s@), r_key, s_key),
    ensures
        out@ == sharded_join(rows(r@), rows(s@), r_key, s_key, k as nat, k as nat),
{
    let rk = vec![r_key];
    let sk = vec![s_key];
    assert(rk@ =~= seq![r_key]);
    assert(sk@ =~= seq![s_key]);
    assert(keys_in_range(rows(r@), rk@));
    assert(keys_in_range(rows(s@), sk@));
    let rp = hash_partition(r, rk.as_slice(), k);
    let sp = hash_partition(s, sk.as_slice(), k);
    let mut out: Vec<(i64, i64, i64)> = Vec::new();
    let mut j: usize = 0;
    while j < k
        invariant
            j <= k,
            rp@.len() == k,
            sp@.len() == k,
            rk@ == seq![r_key],
            sk@ == seq![s_key],
            join_shapes(rows(r@), rows(s@), r_key, s_key),
            forall|q: int| 0 <= q < k ==> #[trigger] rows(rp@[q]@) == shard(rows(r@), rk@, k as nat, q as nat),
            forall|q: int| 0 <= q < k ==> #[trigger] rows(sp@[q]@) == shard(rows(s@), sk@, k as nat, q as nat),
            out@ == sharded_join(rows(r@), rows(s@), r_key, s_key, k as nat, j as nat),
        decreases k - j,
    {
        proof {
            lemma_shard_shapes(rows(r@), rows(s@), r_key, s_key, k as nat, j as nat);
            assert(rows(rp@[j as int]@) == shard(rows(r@), rk@, k as nat, j as nat));
            assert(rows(sp@[j as int]@) == shard(rows(s@), sk@, k as nat, j as nat));
            assert(rp[j as int]@ == rp@[j as int]@);
        }
        let mut part = binary_join(rp[j].as_slice(), sp[j].as_slice(), r_key, s_key);
        out.append(&mut part);
        j = j + 1;
    }
    out
}


proof fn lemma_empty_ms<A>(s: Seq<A>)
    requires
        s.len() == 0,
    ensures
        s.to_multiset() == Multiset::<A>::empty(),
{
    broadcast use vstd::seq_lib::group_to_multiset_ensures;
    vstd::multiset::lemma_multiset_empty_len(s.to_multiset());
}

/// Multiset union of the shard-local joins over shards `0..n`.
pub open spec fn sharded_join_ms(r: Seq<Seq<i64>>, s: Seq<Seq<i64>>, r_key: usize, s_key: usize, k: nat, n: nat) -> Multiset<(i64, i64, i64)>
    decreases n,
{
    if n == 0 {
        Multiset::empty()
    } else {
        sharded_join_ms(r, s, r_key, s_key, k, (n - 1) as nat).add(
            join_spec(shard(r, seq![r_key], k, (n - 1) as nat), shard(s, seq![s_key], k, (n - 1) as nat), r_key, s_key).to_multiset(),
        )
    }
}

proof fn lemma_sharded_ms(r: Seq<Seq<i64>>, s: Seq<Seq<i64>>, r_key: usize, s_key: usize, k: nat, n: nat)
    ensures
        sharded_join(r, s, r_key, s_key, k, n).to_multiset() == sharded_join_ms(r, s, r_key, s_key, k, n),
    decreases n,
{
    broadcast use vstd::seq_lib::lemma_multiset_commutative;
    broadcast use vstd::multiset::group_multiset_axioms;
    if n == 0 {
        lemma_empty_ms(sharded_join(r, s, r_key, s_key, k, n));
    } else {
        lemma_sharded_ms(r, s, r_key, s_key, k, (n - 1) as nat);
    }
}

/// A one-column key hashes by the key value alone.
proof fn lemma_one_col_shard(t: Seq<i64>, u: Seq<i64>, c: usize, d: usize, k: nat)
    requires
        c < t.len(),
        d < u.len(),
        t[c as int] == u[d as int],
    ensures
        shard_of(t, seq![c], k) == shard_of(u, seq![d], k),
{
    let ec = seq![c];
    let ed = seq![d];
    assert(ec.drop_last() =~= Seq::<usize>::empty());
    assert(ed.drop_last() =~= Seq::<usize>::empty());
    assert(ec.last() == c);
    assert(ed.last() == d);
    assert(key_hash(t, ec.drop_last()) == 0u64);
    assert(key_hash(u, ed.drop_last()) == 0u64);
    assert(key_hash(t, seq![c]) == fnv_step(0u64, hash_spec(t[c as int])));
    assert(key_hash(u, seq![d]) == fnv_step(0u64, hash_spec(u[d as int])));
}

/// An `r` tuple only meets `s` tuples of its own shard.
proof fn lemma_matches_in_shard(tr: Seq<i64>, s: Seq<Seq<i64>>, r_key: usize, s_key: usize, k: nat)
    requires
        r_key < tr.len(),
        s_key <= 1,
        forall|i: int| 0 <= i < s.len() ==> 2 <= #[trigger] s[i].len(),
    ensures
        matches_of(tr, shard(s, seq![s_key], k, shard_of(tr, seq![r_key], k)), r_key, s_key)
            == matches_of(tr, s, r_key, s_key),
    decreases s.len(),
{
    reveal_with_fuel(Seq::filter, 1);
    let j0 = shard_of(tr, seq![r_key], k);
    if s.len() > 0 {
        let sd = s.drop_last();
        assert forall|i: int| 0 <= i < sd.len() implies 2 <= #[trigger] sd[i].len() by {
            assert(sd[i] == s[i]);
        }
        lemma_matches_in_shard(tr, sd, r_key, s_key, k);
        let ts = s.last();
        assert(2 <= s[s.len() - 1].len());
        let f = shard(sd, seq![s_key], k, j0);
        if shard_of(ts, seq![s_key], k) == j0 {
            assert(shard(s, seq![s_key], k, j0) == f.push(ts));
            assert(f.push(ts).drop_last() =~= f);
        } else {
            assert(shard(s, seq![s_key], k, j0) == f);
            if ts[s_key as int] == tr[r_key as int] {
                lemma_one_col_shard(ts, tr, s_key, r_key, k);
            }
        }
    }
}

/// Adding one `r` tuple adds its matches, in its own shard.
proof fn lemma_sharded_push(r: Seq<Seq<i64>>, t: Seq<i64>, s: Seq<Seq<i64>>, r_key: usize, s_key: usize, k: nat, n: nat)
    ensures
        sharded_join_ms(r.push(t), s, r_key, s_key, k, n) == sharded_join_ms(r, s, r_key, s_key, k, n).add(
            if shard_of(t, seq![r_key], k) < n {
                matches_of(t, shard(s, seq![s_key], k, shard_of(t, seq![r_key], k)), r_key, s_key).to_multiset()
            } else {
                Multiset::empty()
            },
        ),
    decreases n,
{
    broadcast use vstd::seq_lib::lemma_multiset_commutative;
    broadcast use vstd::multiset::group_multiset_axioms;
    reveal_with_fuel(Seq::filter, 1);
    if n > 0 {
        let j = (n - 1) as nat;
        lemma_sharded_push(r, t, s, r_key, s_key, k, j);
        let sj = shard(s, seq![s_key], k, j);
        let x = shard(r, seq![r_key], k, j);
        assert(r.push(t).drop_last() =~= r);
        if shard_of(t, seq![r_key], k) == j {
            assert(shard(r.push(t), seq![r_key], k, j) == x.push(t));
            assert(x.push(t).drop_last() =~= x);
            assert(join_spec(x.push(t), sj, r_key, s_key) == join_spec(x, sj, r_key, s_key) + matches_of(t, sj, r_key, s_key));
        } else {
            assert(shard(r.push(t), seq![r_key], k, j) == x);
        }
        assert(sharded_join_ms(r.push(t), s, r_key, s_key, k, n) =~= sharded_join_ms(r, s, r_key, s_key, k, n).add(
            if shard_of(t, seq![r_key], k) < n {
                matches_of(t, shard(s, seq![s_key], k, shard_of(t, seq![r_key], k)), r_key, s_key).to_multiset()
            } else {
                Multiset::empty()
            },
        ));
    } else {
        assert(sharded_join_ms(r.push(t), s, r_key, s_key, k, n) =~= Multiset::empty());
    }
}

proof fn lemma_sharded_whole(r: Seq<Seq<i64>>, s: Seq<Seq<i64>>, r_key: usize, s_key: usize, k: nat)
    requires
        k > 0,
        join_shapes(r, s, r_key, s_key),
    ensures
        sharded_join_ms(r, s, r_key, s_key, k, k) == join_spec(r, s, r_key, s_key).to_multiset(),
    decreases r.len(),
{
    broadcast use vstd::seq_lib::lemma_multiset_commutative;
    broadcast use vstd::multiset::group_multiset_axioms;
    if r.len() == 0 {
        assert forall|n: nat| n <= k implies #[trigger] sharded_join_ms(r, s, r_key, s_key, k, n) =~= Multiset::empty() by {
            lemma_sharded_empty(r, s, r_key, s_key, k, n);
        }
        lemma_empty_ms(join_spec(r, s, r_key, s_key));
    } else {
        let rd = r.drop_last();
        let t = r.last();
        assert(join_shapes(rd, s, r_key, s_key)) by {
            assert forall|i: int| 0 <= i < rd.len() implies r_key < #[trigger] rd[i].len() && 0 < rd[i].len() by {
                assert(rd[i] == r[i]);
            }
        }
        lemma_sharded_whole(rd, s, r_key, s_key, k);
        assert(rd.push(t) =~= r);
        assert(r_key < r[r.len() - 1].len());
        lemma_sharded_push(rd, t, s, r_key, s_key, k, k);
        lemma_matches_in_shard(t, s, r_key, s_key, k);
    }
}

proof fn lemma_sharded_empty(r: Seq<Seq<i64>>, s: Seq<Seq<i64>>, r_key: usize, s_key: usize, k: nat, n: nat)
    requires
        r.len() == 0,
    ensures
        sharded_join_ms(r, s, r_key, s_key, k, n) =~= Multiset::empty(),
    decreases n,
{
    broadcast use vstd::multiset::group_multiset_axioms;
    reveal_with_fuel(Seq::filter, 1);
    if n > 0 {
        lemma_sharded_empty(r, s, r_key, s_key, k, (n - 1) as nat);
        assert(shard(r, seq![r_key], k, (n - 1) as nat).len() == 0);
        lemma_empty_ms(join_spec(shard(r, seq![r_key], k, (n - 1) as nat), shard(s, seq![s_key], k, (n - 1) as nat), r_key, s_key));
    }
}

/// The radix-partitioned join equals the whole join as a multiset of rows:
/// tuples that can match hash to the same shard.
pub proof fn lemma_partitioned_join_is_whole(r: Seq<Seq<i64>>, s: Seq<Seq<i64>>, r_key: usize, s_key: usize, k: nat)
    requires
        k > 0,
        join_shapes(r, s, r_key, s_key),
    ensures
        sharded_join(r, s, r_key, s_key, k, k).to_multiset() == join_spec(r, s, r_key, s_key).to_multiset(),
{
    lemma_sharded_ms(r, s, r_key, s_key, k, k);
    lemma_sharded_whole(r, s, r_key, s_key, k);
}


/// `1` for true, `0` for false.
pub open spec fn ind(b: bool) -> int {
    if b { 1 } else { 0 }
}

/// Every edge has at least two columns.
pub open spec fn binary_edges(e: Seq<Seq<i64>>) -> bool {
    forall|i: int| 0 <= i < e.len() ==> 2 <= #[trigger] e[i].len()
}

/// Some edge goes from `x` to `y`.
pub open spec fn has_edge(e: Seq<Seq<i64>>, x: i64, y: i64) -> bool {
    exists|m: int| 0 <= m < e.len() && (#[trigger] e[m])[0] == x && e[m][1] == y
}

/// Edges `a = (x, y)` and `b = (y, z)` close a directed triangle with an
/// edge `(x, z)`.
pub open spec fn tri(e: Seq<Seq<i64>>, a: int, b: int) -> bool {
    e[b][0] == e[a][1] && has_edge(e, e[a][0], e[b][1])
}

/// Row `a` is the first row that carries its edge `(x, y)`; a repeated row
/// stands for the same edge and is not counted again.
pub open spec fn first_row(e: Seq<Seq<i64>>, a: int) -> bool {
    forall|q: int| 0 <= q < a ==> !((#[trigger] e[q])[0] == e[a][0] && e[q][1] == e[a][1])
}

/// The pairs of distinct edges (each taken at its first row) that close a
/// triangle.
pub open spec fn tri_pairs(e: Seq<Seq<i64>>) -> spec_fn(int, int) -> int {
    |a: int, b: int| ind(first_row(e, a) && first_row(e, b) && tri(e, a, b))
}

/// The number of directed triangles `(x, y, z)` with `(x, y), (y, z), (x, z)`
/// edges: each is one pair of distinct edges `(x, y), (y, z)` closed by
/// `(x, z)`, so the count runs over the first rows of the edges.
pub open spec fn tri_count(e: Seq<Seq<i64>>) -> int {
    sum(e.len(), |a: int| rowsum(e.len(), tri_pairs(e), a))
}

fn has_edge_exec(edges: &[Vec<i64>], x: i64, y: i64) -> (r: bool)
    requires
        binary_edges(rows(edges@)),
    ensures
        r == has_edge(rows(edges@), x, y),
{
    let ghost e = rows(edges@);
    let mut m: usize = 0;
    while m < edges.len()
        invariant
            m <= edges@.len(),
            e == rows(edges@),
            binary_edges(e),
            forall|q: int| 0 <= q < m ==> !((#[trigger] e[q])[0] == x && e[q][1] == y),
        decreases edges@.len() - m,
    {
        assert(e[m as int] == edges@[m as int]@);
        assert(2 <= e[m as int].len());
        if edges[m][0] == x && edges[m][1] == y {
            return true;
        }
        m = m + 1;
    }
    false
}

/// Marks, for each row, whether it is the first row carrying its edge.
fn first_flags(edges: &[Vec<i64>]) -> (fst: Vec<bool>)
    requires
        binary_edges(rows(edges@)),
    ensures
        fst@.len() == edges@.len(),
        forall|a: int| 0 <= a < edges@.len() ==> #[trigger] fst@[a] == first_row(rows(edges@), a),
{
    let ghost e = rows(edges@);
    let n = edges.len();
    let mut fst: Vec<bool> = Vec::new();
    let mut a: usize = 0;
    while a < n
        invariant
            n == edges@.len(),
            e == rows(edges@),
            binary_edges(e),
            a <= n,
            fst@.len() == a,
            forall|x: int| 0 <= x < a ==> #[trigger] fst@[x] == first_row(e, x),
        decreases n - a,
    {
        assert(e[a as int] == edges@[a as int]@);
        assert(2 <= e[a as int].len());
        let mut is_first = true;
        let mut q: usize = 0;
        while q < a
            invariant
                n == edges@.len(),
                e == rows(edges@),
                binary_edges(e),
                a < n,
                q <= a,
                e[a as int] == edges@[a as int]@,
                2 <= e[a as int].len(),
                is_first == forall|r: int| 0 <= r < q ==> !((#[trigger] e[r])[0] == e[a as int][0] && e[r][1] == e[a as int][1]),
            decreases a - q,
        {
            assert(e[q as int] == edges@[q as int]@);
            assert(2 <= e[q as int].len());
            if edges[q][0] == edges[a][0] && edges[q][1] == edges[a][1] {
                is_first = false;
            }
            q = q + 1;
        }
        fst.push(is_first);
        a = a + 1;
    }
    fst
}

/// Directed-triangle count `#{(x, y, z) : (x, y), (y, z), (x, z) ∈ E}`: pairs of
/// distinct edges `(x, y), (y, z)` closed by an edge `(x, z)`; a repeated row
/// is the same edge and counts once.
pub fn triangles(edges: &[Vec<i64>]) -> (count: u64)
    requires
        binary_edges(rows(edges@)),
        tri_count(rows(edges@)) <= u64::MAX,
    ensures
        count == tri_count(rows(edges@)),
{
    let ghost e = rows(edges@);
    let n = edges.len();
    let ghost rowf = |a: int| rowsum(n as nat, tri_pairs(e), a);
    proof {
        assert forall|a: int| 0 <= a < n implies 0 <= #[trigger] rowf(a) <= n by {
            lemma_sum_bounds(n as nat, |b: int| tri_pairs(e)(a, b), 1);
        }
        assert(e.len() == n);
        assert(sum(n as nat, rowf) == tri_count(e)) by {
            lemma_sum_ext(n as nat, rowf, |a: int| rowsum(e.len(), tri_pairs(e), a));
        }
    }
    let fst = first_flags(edges);
    let mut count: u64 = 0;
    let mut a: usize = 0;
    while a < n
        invariant
            n == edges@.len(),
            e == rows(edges@),
            binary_edges(e),
            fst@.len() == n,
            forall|q: int| 0 <= q < n ==> #[trigger] fst@[q] == first_row(e, q),
            a <= n,
            sum(n as nat, rowf) <= u64::MAX,
            rowf == (|a: int| rowsum(n as nat, tri_pairs(e), a)),
            forall|q: int| 0 <= q < n ==> 0 <= #[trigger] rowf(q) <= n,
            count == sum(a as nat, rowf),
        decreases n - a,
    {
        proof {
            lemma_sum_mono((a + 1) as nat, n as nat, rowf);
        }
        let ghost base = count as int;
        let mut b: usize = 0;
        while b < n
            invariant
                n == edges@.len(),
                e == rows(edges@),
                binary_edges(e),
                fst@.len() == n,
                forall|q: int| 0 <= q < n ==> #[trigger] fst@[q] == first_row(e, q),
                a < n,
                b <= n,
                base + rowf(a as int) <= u64::MAX,
                rowf == (|a: int| rowsum(n as nat, tri_pairs(e), a)),
                count == base + sum(b as nat, |b: int| tri_pairs(e)(a as int, b)),
            decreases n - b,
        {
            proof {
                lemma_sum_mono((b + 1) as nat, n as nat, |b: int| tri_pairs(e)(a as int, b));
            }
            assert(e[a as int] == edges@[a as int]@);
            assert(e[b as int] == edges@[b as int]@);
            assert(2 <= e[a as int].len() && 2 <= e[b as int].len());
            if fst[a] && fst[b] && edges[b][0] == edges[a][1] && has_edge_exec(edges, edges[a][0], edges[b][1]) {
                count = count + 1;
            }
            b = b + 1;
        }
        a = a + 1;
    }
    count
}


/// Edges `a` and `b` fall in cell `(i, j, k)`: `a = (x, y)` with `x → i`,
/// `y → j`, and `b = (y', z)` with `y' → j`, `z → k`.
pub open spec fn in_cell(e: Seq<Seq<i64>>, p: nat, a: int, b: int, i: int, j: int, k: int) -> bool {
    &&& slot_spec(e[a][0], p) == i
    &&& slot_spec(e[a][1], p) == j
    &&& slot_spec(e[b][0], p) == j
    &&& slot_spec(e[b][1], p) == k
}

/// One summand of the hypercube count.
pub open spec fn g5(e: Seq<Seq<i64>>, p: nat, i: int, j: int, k: int, a: int, b: int) -> int {
    ind(in_cell(e, p, a, b, i, j, k) && first_row(e, a) && first_row(e, b) && tri(e, a, b))
}

/// Row `a` of the local triangle count of cell `(i, j, k)`.
pub open spec fn cell_row(e: Seq<Seq<i64>>, p: nat, i: int, j: int, k: int, a: int) -> int {
    rowsum(e.len(), |a: int, b: int| g5(e, p, i, j, k, a, b), a)
}

/// The local triangle count of cell `(i, j, k)`.
pub open spec fn cell_count(e: Seq<Seq<i64>>, p: nat, i: int, j: int, k: int) -> int {
    sum(e.len(), |a: int| cell_row(e, p, i, j, k, a))
}

/// Cells `(i, j, 0..p)`.
pub open spec fn hk(e: Seq<Seq<i64>>, p: nat, i: int, j: int) -> int {
    sum(p, |k: int| cell_count(e, p, i, j, k))
}

/// Cells `(i, 0..p, 0..p)`.
pub open spec fn hj(e: Seq<Seq<i64>>, p: nat, i: int) -> int {
    sum(p, |j: int| hk(e, p, i, j))
}

/// The hypercube total over all `p³` cells.
pub open spec fn hyper_count(e: Seq<Seq<i64>>, p: nat) -> int {
    sum(p, |i: int| hj(e, p, i))
}

pub open spec fn over_k(e: Seq<Seq<i64>>, p: nat, i: int, j: int, a: int, b: int) -> int {
    sum(p, |k: int| g5(e, p, i, j, k, a, b))
}

pub open spec fn over_jk(e: Seq<Seq<i64>>, p: nat, i: int, a: int, b: int) -> int {
    sum(p, |j: int| over_k(e, p, i, j, a, b))
}

pub open spec fn over_ijk(e: Seq<Seq<i64>>, p: nat, a: int, b: int) -> int {
    sum(p, |i: int| over_jk(e, p, i, a, b))
}

pub open spec fn ak(e: Seq<Seq<i64>>, p: nat, i: int, j: int, a: int) -> int {
    sum(e.len(), |b: int| over_k(e, p, i, j, a, b))
}

pub open spec fn ajk(e: Seq<Seq<i64>>, p: nat, i: int, a: int) -> int {
    sum(e.len(), |b: int| over_jk(e, p, i, a, b))
}

pub open spec fn aijk(e: Seq<Seq<i64>>, p: nat, a: int) -> int {
    sum(e.len(), |b: int| over_ijk(e, p, a, b))
}

/// `Σ_x Σ_y G(x, y) = Σ_y Σ_x G(x, y)`, on the exact closures callers use.
proof fn lemma_swap(n: nat, m: nat, g: spec_fn(int, int) -> int)
    ensures
        sum(n, |x: int| sum(m, |y: int| g(x, y))) == sum(m, |y: int| sum(n, |x: int| g(x, y))),
{
    lemma_sum_swap2(n, m, g);
    assert((|x: int| rowsum(m, g, x)) =~= (|x: int| sum(m, |y: int| g(x, y))));
    assert((|y: int| colsum(n, g, y)) =~= (|y: int| sum(n, |x: int| g(x, y))));
}

proof fn lemma_level_k(e: Seq<Seq<i64>>, p: nat, i: int, j: int)
    ensures
        hk(e, p, i, j) == sum(e.len(), |a: int| ak(e, p, i, j, a)),
{
    let n = e.len();
    let f = |k: int, a: int| cell_row(e, p, i, j, k, a);
    lemma_swap(p, n, f);
    assert forall|k: int| #![trigger cell_count(e, p, i, j, k)] true implies cell_count(e, p, i, j, k) == sum(n, |a: int| f(k, a)) by {
        assert((|a: int| cell_row(e, p, i, j, k, a)) =~= (|a: int| f(k, a)));
    }
    assert((|k: int| cell_count(e, p, i, j, k)) =~= (|k: int| sum(n, |a: int| f(k, a))));
    assert forall|a: int| #![trigger ak(e, p, i, j, a)] true implies sum(p, |k: int| f(k, a)) == ak(e, p, i, j, a) by {
        let g = |k: int, b: int| g5(e, p, i, j, k, a, b);
        lemma_swap(p, n, g);
        assert forall|k: int| #![trigger cell_row(e, p, i, j, k, a)] true implies cell_row(e, p, i, j, k, a) == sum(n, |b: int| g(k, b)) by {
            assert((|b: int| (|a: int, b: int| g5(e, p, i, j, k, a, b))(a, b)) =~= (|b: int| g(k, b)));
        }
        assert((|k: int| f(k, a)) =~= (|k: int| sum(n, |b: int| g(k, b))));
        assert forall|b: int| #![trigger over_k(e, p, i, j, a, b)] true implies over_k(e, p, i, j, a, b) == sum(p, |k: int| g(k, b)) by {
            assert((|k: int| g5(e, p, i, j, k, a, b)) =~= (|k: int| g(k, b)));
        }
        assert((|b: int| sum(p, |k: int| g(k, b))) =~= (|b: int| over_k(e, p, i, j, a, b)));
    }
    assert((|a: int| sum(p, |k: int| f(k, a))) =~= (|a: int| ak(e, p, i, j, a)));
}

proof fn lemma_level_j(e: Seq<Seq<i64>>, p: nat, i: int)
    ensures
        hj(e, p, i) == sum(e.len(), |a: int| ajk(e, p, i, a)),
{
    let n = e.len();
    let f = |j: int, a: int| ak(e, p, i, j, a);
    assert forall|j: int| #![trigger hk(e, p, i, j)] true implies hk(e, p, i, j) == sum(n, |a: int| f(j, a)) by {
        lemma_level_k(e, p, i, j);
        assert((|a: int| ak(e, p, i, j, a)) =~= (|a: int| f(j, a)));
    }
    assert((|j: int| hk(e, p, i, j)) =~= (|j: int| sum(n, |a: int| f(j, a))));
    lemma_swap(p, n, f);
    assert forall|a: int| #![trigger ajk(e, p, i, a)] true implies sum(p, |j: int| f(j, a)) == ajk(e, p, i, a) by {
        let g = |j: int, b: int| over_k(e, p, i, j, a, b);
        lemma_swap(p, n, g);
        assert forall|j: int| #![trigger ak(e, p, i, j, a)] true implies ak(e, p, i, j, a) == sum(n, |b: int| g(j, b)) by {
            assert((|b: int| over_k(e, p, i, j, a, b)) =~= (|b: int| g(j, b)));
        }
        assert((|j: int| f(j, a)) =~= (|j: int| sum(n, |b: int| g(j, b))));
        assert forall|b: int| #![trigger over_jk(e, p, i, a, b)] true implies over_jk(e, p, i, a, b) == sum(p, |j: int| g(j, b)) by {
            assert((|j: int| over_k(e, p, i, j, a, b)) =~= (|j: int| g(j, b)));
        }
        assert((|b: int| sum(p, |j: int| g(j, b))) =~= (|b: int| over_jk(e, p, i, a, b)));
    }
    assert((|a: int| sum(p, |j: int| f(j, a))) =~= (|a: int| ajk(e, p, i, a)));
}

proof fn lemma_level_i(e: Seq<Seq<i64>>, p: nat)
    ensures
        hyper_count(e, p) == sum(e.len(), |a: int| aijk(e, p, a)),
{
    let n = e.len();
    let f = |i: int, a: int| ajk(e, p, i, a);
    assert forall|i: int| #![trigger hj(e, p, i)] true implies hj(e, p, i) == sum(n, |a: int| f(i, a)) by {
        lemma_level_j(e, p, i);
        assert((|a: int| ajk(e, p, i, a)) =~= (|a: int| f(i, a)));
    }
    assert((|i: int| hj(e, p, i)) =~= (|i: int| sum(n, |a: int| f(i, a))));
    lemma_swap(p, n, f);
    assert forall|a: int| #![trigger aijk(e, p, a)] true implies sum(p, |i: int| f(i, a)) == aijk(e, p, a) by {
        let g = |i: int, b: int| over_jk(e, p, i, a, b);
        lemma_swap(p, n, g);
        assert forall|i: int| #![trigger ajk(e, p, i, a)] true implies ajk(e, p, i, a) == sum(n, |b: int| g(i, b)) by {
            assert((|b: int| over_jk(e, p, i, a, b)) =~= (|b: int| g(i, b)));
        }
        assert((|i: int| f(i, a)) =~= (|i: int| sum(n, |b: int| g(i, b))));
        assert forall|b: int| #![trigger over_ijk(e, p, a, b)] true implies over_ijk(e, p, a, b) == sum(p, |i: int| g(i, b)) by {
            assert((|i: int| over_jk(e, p, i, a, b)) =~= (|i: int| g(i, b)));
        }
        assert((|b: int| sum(p, |i: int| g(i, b))) =~= (|b: int| over_ijk(e, p, a, b)));
    }
    assert((|a: int| sum(p, |i: int| f(i, a))) =~= (|a: int| aijk(e, p, a)));
}

proof fn lemma_one_cell(e: Seq<Seq<i64>>, p: nat, a: int, b: int)
    requires
        p > 0,
    ensures
        over_ijk(e, p, a, b) == ind(first_row(e, a) && first_row(e, b) && tri(e, a, b)),
{
    let i0 = slot_spec(e[a][0], p) as int;
    let j0 = slot_spec(e[a][1], p) as int;
    let k0 = slot_spec(e[b][1], p) as int;
    assert forall|i: int, j: int| #![trigger over_k(e, p, i, j, a, b)] true implies over_k(e, p, i, j, a, b)
        == if i == i0 && j == j0 { ind(first_row(e, a) && first_row(e, b) && tri(e, a, b)) } else { 0 } by {
        lemma_sum_single(p, |k: int| g5(e, p, i, j, k, a, b), k0);
    }
    assert forall|i: int| #![trigger over_jk(e, p, i, a, b)] true implies over_jk(e, p, i, a, b)
        == if i == i0 { ind(first_row(e, a) && first_row(e, b) && tri(e, a, b)) } else { 0 } by {
        lemma_sum_single(p, |j: int| over_k(e, p, i, j, a, b), j0);
    }
    lemma_sum_single(p, |i: int| over_jk(e, p, i, a, b), i0);
}

/// Each triangle lands in exactly one hypercube cell: for `p > 0` the sum of
/// the `p³` local counts is the whole triangle count.
pub proof fn lemma_hypercube_is_whole(e: Seq<Seq<i64>>, p: nat)
    requires
        p > 0,
    ensures
        hyper_count(e, p) == tri_count(e),
{
    let n = e.len();
    lemma_level_i(e, p);
    assert forall|a: int| #![trigger aijk(e, p, a)] true implies aijk(e, p, a) == rowsum(n, tri_pairs(e), a) by {
        assert forall|b: int| #![trigger over_ijk(e, p, a, b)] true implies over_ijk(e, p, a, b) == tri_pairs(e)(a, b) by {
            lemma_one_cell(e, p, a, b);
        }
        assert((|b: int| over_ijk(e, p, a, b)) =~= (|b: int| tri_pairs(e)(a, b)));
    }
    assert((|a: int| aijk(e, p, a)) =~= (|a: int| rowsum(n, tri_pairs(e), a)));
}


proof fn lemma_cell_bounds(e: Seq<Seq<i64>>, p: nat, i: int, j: int, k: int)
    ensures
        forall|a: int| 0 <= a < e.len() ==> 0 <= #[trigger] cell_row(e, p, i, j, k, a) <= e.len(),
        0 <= cell_count(e, p, i, j, k) <= e.len() * e.len(),
{
    let n = e.len();
    assert forall|a: int| 0 <= a < n implies 0 <= #[trigger] cell_row(e, p, i, j, k, a) <= n by {
        lemma_sum_bounds(n, |b: int| (|a: int, b: int| g5(e, p, i, j, k, a, b))(a, b), 1);
    }
    lemma_sum_bounds(n, |a: int| cell_row(e, p, i, j, k, a), n as int);
}

/// Is `(x, y)` an edge of the cell-local relation `T(a, c)`: `a → i`, `c → k`?
fn tac_has(edges: &[Vec<i64>], sl0: &Vec<usize>, sl1: &Vec<usize>, i: usize, k: usize, x: i64, y: i64) -> (r: bool)
    requires
        binary_edges(rows(edges@)),
        sl0@.len() == edges@.len(),
        sl1@.len() == edges@.len(),
    ensures
        r == exists|m: int| 0 <= m < edges@.len() && sl0@[m] == i && sl1@[m] == k && (#[trigger] rows(edges@)[m])[0] == x && rows(edges@)[m][1] == y,
{
    let ghost e = rows(edges@);
    let mut m: usize = 0;
    while m < edges.len()
        invariant
            m <= edges@.len(),
            e == rows(edges@),
            binary_edges(e),
            sl0@.len() == edges@.len(),
            sl1@.len() == edges@.len(),
            forall|q: int| 0 <= q < m ==> !(sl0@[q] == i && sl1@[q] == k && (#[trigger] e[q])[0] == x && e[q][1] == y),
        decreases edges@.len() - m,
    {
        assert(e[m as int] == edges@[m as int]@);
        assert(2 <= e[m as int].len());
        if sl0[m] == i && sl1[m] == k && edges[m][0] == x && edges[m][1] == y {
            return true;
        }
        m = m + 1;
    }
    false
}

fn cell_exec(edges: &[Vec<i64>], sl0: &Vec<usize>, sl1: &Vec<usize>, fst: &Vec<bool>, p: usize, i: usize, j: usize, k: usize) -> (c: u64)
    requires
        binary_edges(rows(edges@)),
        fst@.len() == edges@.len(),
        forall|a: int| 0 <= a < edges@.len() ==> #[trigger] fst@[a] == first_row(rows(edges@), a),
        cell_count(rows(edges@), p as nat, i as int, j as int, k as int) <= u64::MAX,
        p > 0,
        sl0@.len() == edges@.len(),
        sl1@.len() == edges@.len(),
        forall|a: int| 0 <= a < edges@.len() ==> #[trigger] sl0@[a] == slot_spec(rows(edges@)[a][0], p as nat),
        forall|a: int| 0 <= a < edges@.len() ==> #[trigger] sl1@[a] == slot_spec(rows(edges@)[a][1], p as nat),
    ensures
        c == cell_count(rows(edges@), p as nat, i as int, j as int, k as int),
{
    let ghost e = rows(edges@);
    let n = edges.len();
    let ghost rowf = |a: int| cell_row(e, p as nat, i as int, j as int, k as int, a);
    proof {
        lemma_cell_bounds(e, p as nat, i as int, j as int, k as int);
        assert(e.len() == n);
        lemma_sum_ext(n as nat, rowf, |a: int| cell_row(e, p as nat, i as int, j as int, k as int, a));
    }
    let mut c: u64 = 0;
    let mut a: usize = 0;
    while a < n
        invariant
            n == edges@.len(),
            e == rows(edges@),
            binary_edges(e),
            p > 0,
            a <= n,
            sl0@.len() == n,
            sl1@.len() == n,
            forall|q: int| 0 <= q < n ==> #[trigger] sl0@[q] == slot_spec(e[q][0], p as nat),
            forall|q: int| 0 <= q < n ==> #[trigger] sl1@[q] == slot_spec(e[q][1], p as nat),
            fst@.len() == n,
            forall|q: int| 0 <= q < n ==> #[trigger] fst@[q] == first_row(e, q),
            rowf == (|a: int| cell_row(e, p as nat, i as int, j as int, k as int, a)),
            forall|q: int| 0 <= q < n ==> 0 <= #[trigger] rowf(q) <= n,
            0 <= sum(n as nat, rowf) <= u64::MAX,
            c == sum(a as nat, rowf),
        decreases n - a,
    {
        proof {
            lemma_sum_mono((a + 1) as nat, n as nat, rowf);
        }
        let ghost g = |b: int| (|a: int, b: int| g5(e, p as nat, i as int, j as int, k as int, a, b))(a as int, b);
        assert(rowf(a as int) == sum(n as nat, g));
        if sl0[a] == i && sl1[a] == j {
            let ghost base = c as int;
            let mut b: usize = 0;
            while b < n
                invariant
                    n == edges@.len(),
                    e == rows(edges@),
                    binary_edges(e),
                    p > 0,
                    a < n,
                    b <= n,
                    sl0@.len() == n,
                    sl1@.len() == n,
                    forall|q: int| 0 <= q < n ==> #[trigger] sl0@[q] == slot_spec(e[q][0], p as nat),
                    forall|q: int| 0 <= q < n ==> #[trigger] sl1@[q] == slot_spec(e[q][1], p as nat),
                    fst@.len() == n,
                    forall|q: int| 0 <= q < n ==> #[trigger] fst@[q] == first_row(e, q),
                    sl0@[a as int] == i,
                    sl1@[a as int] == j,
                    base + rowf(a as int) <= u64::MAX,
                    rowf(a as int) == sum(n as nat, g),
                    g == (|b: int| (|a: int, b: int| g5(e, p as nat, i as int, j as int, k as int, a, b))(a as int, b)),
                    forall|q: int| 0 <= q < n ==> 0 <= #[trigger] g(q) <= 1,
                    c == base + sum(b as nat, g),
                decreases n - b,
            {
                proof {
                    lemma_sum_mono((b + 1) as nat, n as nat, g);
                }
                assert(e[a as int] == edges@[a as int]@);
                assert(e[b as int] == edges@[b as int]@);
                assert(2 <= e[a as int].len() && 2 <= e[b as int].len());
                if fst[a] && fst[b] && sl0[b] == j && sl1[b] == k && edges[b][0] == edges[a][1] {
                    let hit = tac_has(edges, sl0, sl1, i, k, edges[a][0], edges[b][1]);
                    proof {
                        if has_edge(e, e[a as int][0], e[b as int][1]) {
                            let m = choose|m: int| 0 <= m < e.len() && (#[trigger] e[m])[0] == e[a as int][0] && e[m][1] == e[b as int][1];
                            assert(sl0@[m] == i && sl1@[m] == k);
                        }
                    }
                    if hit {
                        c = c + 1;
                    }
                }
                b = b + 1;
            }
        } else {
            proof {
                lemma_sum_zero(n as nat, g);
            }
        }
        a = a + 1;
    }
    c
}

/// Hypercube triangle count over `p` slots per variable (`p³` cells): each
/// edge is sent to the cells consistent with its two bound variables, a local
/// triangle join runs per cell, and the local counts are summed.
pub fn hypercube_triangles(edges: &[Vec<i64>], p: usize) -> (total: u64)
    requires
        binary_edges(rows(edges@)),
        tri_count(rows(edges@)) <= u64::MAX,
    ensures
        total == hyper_count(rows(edges@), p as nat),
        p > 0 ==> total == tri_count(rows(edges@)),
{
    let ghost e = rows(edges@);
    let n = edges.len();
    if p == 0 {
        return 0;
    }
    let mut sl0: Vec<usize> = Vec::new();
    let mut sl1: Vec<usize> = Vec::new();
    let mut a: usize = 0;
    while a < n
        invariant
            n == edges@.len(),
            e == rows(edges@),
            binary_edges(e),
            p > 0,
            a <= n,
            sl0@.len() == a,
            sl1@.len() == a,
            forall|q: int| 0 <= q < a ==> #[trigger] sl0@[q] == slot_spec(e[q][0], p as nat),
            forall|q: int| 0 <= q < a ==> #[trigger] sl1@[q] == slot_spec(e[q][1], p as nat),
        decreases n - a,
    {
        assert(e[a as int] == edges@[a as int]@);
        assert(2 <= e[a as int].len());
        sl0.push(slot(edges[a][0], p));
        sl1.push(slot(edges[a][1], p));
        a = a + 1;
    }
    let fst = first_flags(edges);
    proof {
        lemma_hypercube_is_whole(e, p as nat);
    }
    let ghost fi = |i: int| hj(e, p as nat, i);
    let mut total: u64 = 0;
    let mut i: usize = 0;
    while i < p
        invariant
            n == edges@.len(),
            e == rows(edges@),
            binary_edges(e),
            0 < p,
            i <= p,
            sl0@.len() == n,
            sl1@.len() == n,
            forall|q: int| 0 <= q < n ==> #[trigger] sl0@[q] == slot_spec(e[q][0], p as nat),
            forall|q: int| 0 <= q < n ==> #[trigger] sl1@[q] == slot_spec(e[q][1], p as nat),
            fst@.len() == n,
            forall|q: int| 0 <= q < n ==> #[trigger] fst@[q] == first_row(e, q),
            fi == (|i: int| hj(e, p as nat, i)),
            hyper_count(e, p as nat) <= u64::MAX,
            total == sum(i as nat, fi),
        decreases p - i,
    {
        let ghost fj = |j: int| hk(e, p as nat, i as int, j);
        proof {
            assert forall|x: int| 0 <= x < p implies 0 <= #[trigger] fi(x) by {
                assert forall|y: int| 0 <= y < p implies 0 <= #[trigger] hk(e, p as nat, x, y) by {
                    assert forall|z: int| 0 <= z < p implies 0 <= #[trigger] cell_count(e, p as nat, x, y, z) by {
                        lemma_cell_bounds(e, p as nat, x, y, z);
                    }
                    lemma_sum_nonneg(p as nat, |z: int| cell_count(e, p as nat, x, y, z));
                }
                lemma_sum_nonneg(p as nat, |y: int| hk(e, p as nat, x, y));
            }
            lemma_sum_mono((i + 1) as nat, p as nat, fi);
            assert forall|y: int| 0 <= y < p implies 0 <= #[trigger] fj(y) by {
                assert forall|z: int| 0 <= z < p implies 0 <= #[trigger] cell_count(e, p as nat, i as int, y, z) by {
                    lemma_cell_bounds(e, p as nat, i as int, y, z);
                }
                lemma_sum_nonneg(p as nat, |z: int| cell_count(e, p as nat, i as int, y, z));
            }
        }
        let ghost base_i = total as int;
        let mut j: usize = 0;
        while j < p
            invariant
                n == edges@.len(),
                e == rows(edges@),
                binary_edges(e),
                    0 < p,
                i < p,
                j <= p,
                sl0@.len() == n,
                sl1@.len() == n,
                forall|q: int| 0 <= q < n ==> #[trigger] sl0@[q] == slot_spec(e[q][0], p as nat),
                forall|q: int| 0 <= q < n ==> #[trigger] sl1@[q] == slot_spec(e[q][1], p as nat),
                fst@.len() == n,
                forall|q: int| 0 <= q < n ==> #[trigger] fst@[q] == first_row(e, q),
                fj == (|j: int| hk(e, p as nat, i as int, j)),
                forall|y: int| 0 <= y < p ==> 0 <= #[trigger] fj(y),
                base_i + sum(p as nat, fj) <= u64::MAX,
                total == base_i + sum(j as nat, fj),
            decreases p - j,
        {
            let ghost fk = |k: int| cell_count(e, p as nat, i as int, j as int, k);
            proof {
                lemma_sum_mono((j + 1) as nat, p as nat, fj);
                assert forall|z: int| 0 <= z < p implies 0 <= #[trigger] fk(z) by {
                    lemma_cell_bounds(e, p as nat, i as int, j as int, z);
                }
            }
            let ghost base_j = total as int;
            let mut k: usize = 0;
            while k < p
                invariant
                    n == edges@.len(),
                    e == rows(edges@),
                    binary_edges(e),
                            0 < p,
                    k <= p,
                    sl0@.len() == n,
                    sl1@.len() == n,
                    forall|q: int| 0 <= q < n ==> #[trigger] sl0@[q] == slot_spec(e[q][0], p as nat),
                    forall|q: int| 0 <= q < n ==> #[trigger] sl1@[q] == slot_spec(e[q][1], p as nat),
                    fst@.len() == n,
                    forall|q: int| 0 <= q < n ==> #[trigger] fst@[q] == first_row(e, q),
                    fk == (|k: int| cell_count(e, p as nat, i as int, j as int, k)),
                    forall|z: int| 0 <= z < p ==> 0 <= #[trigger] fk(z),
                    base_j + sum(p as nat, fk) <= u64::MAX,
                    total == base_j + sum(k as nat, fk),
                decreases p - k,
            {
                proof {
                    lemma_sum_mono((k + 1) as nat, p as nat, fk);
                }
                let c = cell_exec(edges, &sl0, &sl1, &fst, p, i, j, k);
                total = total + c;
                k = k + 1;
            }
            j = j + 1;
        }
        i = i + 1;
    }
    total
}

} // verus!

verus! {

/// `t` and `u` agree on every key column.
pub open spec fn same_key_cols(t: Seq<i64>, u: Seq<i64>, cols: Seq<usize>) -> bool {
    forall|i: int| 0 <= i < cols.len() ==> t[#[trigger] cols[i] as int] == u[cols[i] as int]
}

proof fn lemma_key_hash_agree(t: Seq<i64>, u: Seq<i64>, cols: Seq<usize>)
    requires
        same_key_cols(t, u, cols),
    ensures
        key_hash(t, cols) == key_hash(u, cols),
    decreases cols.len(),
{
    if cols.len() > 0 {
        let init = cols.drop_last();
        assert(same_key_cols(t, u, init)) by {
            assert forall|i: int| 0 <= i < init.len() implies t[#[trigger] init[i] as int] == u[init[i] as int] by {
                assert(init[i] == cols[i]);
            }
        }
        lemma_key_hash_agree(t, u, init);
        assert(t[cols.last() as int] == u[cols.last() as int]) by {
            assert(cols[cols.len() - 1] == cols.last());
        }
    }
}

proof fn lemma_filter_count(s: Seq<Seq<i64>>, p: spec_fn(Seq<i64>) -> bool, x: Seq<i64>)
    ensures
        s.filter(p).to_multiset().count(x) == if p(x) { s.to_multiset().count(x) } else { 0 },
    decreases s.len(),
{
    broadcast use vstd::seq_lib::group_to_multiset_ensures;
    reveal(Seq::filter);
    if s.len() == 0 {
        assert(s.filter(p) =~= s);
    } else {
        let init = s.drop_last();
        lemma_filter_count(init, p, x);
        assert(s =~= init.push(s.last()));
        if p(s.last()) {
            assert(s.filter(p) == init.filter(p).push(s.last()));
        } else {
            assert(s.filter(p) == init.filter(p));
        }
    }
}

/// Hash partitioning loses and invents nothing and co-locates equal keys: each
/// tuple lies in the shard its key hashes to, the `k` shards together hold the
/// input tuples exactly (each as often as in the input), and two tuples that
/// agree on the key columns land in the same shard.
pub proof fn lemma_shards_partition(tuples: Seq<Seq<i64>>, cols: Seq<usize>, k: nat)
    requires
        k > 0,
    ensures
        forall|t: Seq<i64>| #[trigger] shard_of(t, cols, k) < k,
        forall|x: Seq<i64>| #![trigger tuples.to_multiset().count(x)]
            sum(k, |j: int| shard(tuples, cols, k, j as nat).to_multiset().count(x) as int) == tuples.to_multiset().count(x),
        forall|t: Seq<i64>, u: Seq<i64>| #[trigger] same_key_cols(t, u, cols) ==> shard_of(t, cols, k) == shard_of(u, cols, k),
{
    assert forall|x: Seq<i64>| #![trigger tuples.to_multiset().count(x)]
        sum(k, |j: int| shard(tuples, cols, k, j as nat).to_multiset().count(x) as int) == tuples.to_multiset().count(x) by {
        let f = |j: int| shard(tuples, cols, k, j as nat).to_multiset().count(x) as int;
        let c = shard_of(x, cols, k) as int;
        assert forall|j: int| 0 <= j < k && j != c implies #[trigger] f(j) == 0 by {
            lemma_filter_count(tuples, |t: Seq<i64>| shard_of(t, cols, k) == j as nat, x);
        }
        lemma_sum_single(k, f, c);
        lemma_filter_count(tuples, |t: Seq<i64>| shard_of(t, cols, k) == c as nat, x);
    }
    assert forall|t: Seq<i64>, u: Seq<i64>| #[trigger] same_key_cols(t, u, cols) implies shard_of(t, cols, k) == shard_of(u, cols, k) by {
        lemma_key_hash_agree(t, u, cols);
    }
}

/// With no key columns every tuple goes to the first shard: it holds the
/// input as it is and every other shard is empty.
pub proof fn lemma_empty_key_first_shard(tuples: Seq<Seq<i64>>, k: nat)
    requires
        k > 0,
    ensures
        shard(tuples, Seq::empty(), k, 0) == tuples,
        forall|j: nat| 0 < j < k ==> #[trigger] shard(tuples, Seq::empty(), k, j).len() == 0,
{
    let e = Seq::<usize>::empty();
    assert forall|t: Seq<i64>| #[trigger] shard_of(t, e, k) == 0 by {
        assert(key_hash(t, e) == 0);
        assert((0nat % k) == 0) by (nonlinear_arith) requires k > 0;
    }
    lemma_filter_all(tuples, |t: Seq<i64>| shard_of(t, e, k) == 0nat);
    assert forall|j: nat| 0 < j < k implies #[trigger] shard(tuples, Seq::empty(), k, j).len() == 0 by {
        lemma_filter_none(tuples, |t: Seq<i64>| shard_of(t, e, k) == j);
    }
}

proof fn lemma_filter_all(s: Seq<Seq<i64>>, p: spec_fn(Seq<i64>) -> bool)
    requires
        forall|i: int| 0 <= i < s.len() ==> p(#[trigger] s[i]),
    ensures
        s.filter(p) == s,
    decreases s.len(),
{
    reveal(Seq::filter);
    if s.len() > 0 {
        lemma_filter_all(s.drop_last(), p);
        assert(p(s[s.len() - 1]));
        assert(s.drop_last().push(s.last()) =~= s);
    } else {
        assert(s.filter(p) =~= s);
    }
}

proof fn lemma_filter_none(s: Seq<Seq<i64>>, p: spec_fn(Seq<i64>) -> bool)
    requires
        forall|i: int| 0 <= i < s.len() ==> !p(#[trigger] s[i]),
    ensures
        s.filter(p).len() == 0,
    decreases s.len(),
{
    reveal(Seq::filter);
    if s.len() > 0 {
        lemma_filter_none(s.drop_last(), p);
        assert(!p(s[s.len() - 1]));
    }
}

} // verus!
