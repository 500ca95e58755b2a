//! Search guidance: a linear oracle that proposes `#heuristic` levels from a
//! structural feature, and its offline fit. A level hint only reorders the
//! search, so it never changes which answer sets exist.
use vstd::prelude::*;

verus! {

/// Cheap structural features of an atom in the program's constraint graph.
#[derive(Clone, Copy, Debug, Default)]
pub struct AtomFeatures {
    /// Degree of the atom's object in the constraint graph (how constrained it
    /// is) — e.g. a graph-colouring vertex's degree.
    pub degree: u32,
}

/// A linear oracle: `level = weight · degree`. Higher level ⇒ decided earlier,
/// i.e. "branch on the most-constrained object first" when `weight > 0`;
/// `weight = 0` is the no-guidance baseline.
#[derive(Clone, Copy, Debug)]
pub struct Oracle {
    pub weight: i64,
}

impl Oracle {
    /// The no-guidance oracle.
    pub fn baseline() -> (o: Self)
        ensures
            o.weight == 0,
    {
        Oracle { weight: 0 }
    }

    /// The `#heuristic` level for an atom (0 ⇒ emit no hint).
    pub fn level(&self, f: &AtomFeatures) -> (l: i64)
        requires
            i64::MIN <= self.weight * f.degree <= i64::MAX,
        ensures
            l == self.weight * f.degree,
    {
        self.weight * (f.degree as i64)
    }
}

/// The first index of `c` holding its least value.
pub open spec fn first_min(c: Seq<u64>) -> int
    decreases c.len(),
{
    if c.len() <= 1 { 0 } else {
        let k = first_min(c.drop_last());
        if c.last() < c[k] { c.len() - 1 } else { k }
    }
}

/// Offline fit: pick the candidate weight of least measured cost (the first
/// one among equals); with no candidates, weight 0. The caller supplies the
/// cost, called once per candidate.
pub fn train<F: Fn(i64) -> u64>(candidates: &[i64], cost: F) -> (o: Oracle)
    requires
        forall|i: int| 0 <= i < candidates@.len() ==> cost.requires((candidates@[i],)),
    ensures
        candidates@.len() == 0 ==> o.weight == 0,
        candidates@.len() > 0 ==> exists|c: Seq<u64>| #![trigger first_min(c)]
            c.len() == candidates@.len()
            && (forall|i: int| 0 <= i < c.len() ==> cost.ensures((candidates@[i],), c[i]))
            && o.weight == candidates@[first_min(c)],
{
    if candidates.len() == 0 {
        return Oracle { weight: 0 };
    }
    let ghost mut costs: Seq<u64> = Seq::empty();
    let mut best: usize = 0;
    let mut best_c: u64 = 0;
    let mut i: usize = 0;
    while i < candidates.len()
        invariant
            i <= candidates@.len(),
            candidates@.len() > 0,
            forall|j: int| 0 <= j < candidates@.len() ==> cost.requires((candidates@[j],)),
            costs.len() == i,
            forall|j: int| 0 <= j < i ==> cost.ensures((candidates@[j],), costs[j]),
            i > 0 ==> best == first_min(costs) && best < i && best_c == costs[best as int],
        decreases candidates@.len() - i,
    {
        let c = cost(candidates[i]);
        proof {
            let old_costs = costs;
            costs = costs.push(c);
            assert(costs.drop_last() =~= old_costs);
        }
        if i == 0 || c < best_c {
            best = i;
            best_c = c;
        }
        i = i + 1;
    }
    Oracle { weight: candidates[best] }
}

} // verus!
