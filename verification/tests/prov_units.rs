use std::collections::BTreeSet;

use strata_k::eval::provenance::{complement, insert_minimal, product, ProofSet, ProvDb, ProvMode, MAX_PROOFS_PER_TUPLE};

fn as_sets(ps: &ProofSet) -> BTreeSet<BTreeSet<i64>> {
    ps.iter().map(|p| p.iter().copied().collect()).collect()
}

fn sets(ps: &[&[i64]]) -> BTreeSet<BTreeSet<i64>> {
    ps.iter().map(|p| p.iter().copied().collect()).collect()
}

/// Does the proof DNF hold in the world where exactly the facts `present` hold?
fn holds(ps: &ProofSet, present: &[i64]) -> bool {
    ps.iter().any(|p| p.iter().all(|&l| if l > 0 { present.contains(&l) } else { !present.contains(&-l) }))
}

#[test]
fn insert_minimal_absorbs_supersets() {
    let mut s: ProofSet = vec![vec![1, 2]];
    // a superset of a kept proof changes nothing.
    assert!(!insert_minimal(&mut s, vec![1, 2, 3]));
    assert_eq!(as_sets(&s), sets(&[&[1, 2]]));
    // a subset replaces the proofs that contain it.
    assert!(insert_minimal(&mut s, vec![2]));
    assert_eq!(as_sets(&s), sets(&[&[2]]));
    // an incomparable proof joins.
    assert!(insert_minimal(&mut s, vec![-1, 3]));
    assert_eq!(as_sets(&s), sets(&[&[2], &[-1, 3]]));
    // the empty proof (certain) absorbs everything.
    assert!(insert_minimal(&mut s, vec![]));
    assert_eq!(as_sets(&s), sets(&[&[]]));
}

#[test]
fn product_unions_pairs_and_drops_contradictions() {
    let a: ProofSet = vec![vec![1], vec![2]];
    let b: ProofSet = vec![vec![-1], vec![3]];
    let p = product(&a, &b);
    // {1,-1} is contradictory; {1,3}, {2,-1}, {2,3} survive.
    assert_eq!(as_sets(&p), sets(&[&[1, 3], &[-1, 2], &[2, 3]]));
    // product with the unit {∅} is the identity; with the empty DNF it is empty.
    assert_eq!(as_sets(&product(&a, &vec![vec![]])), as_sets(&a));
    assert!(product(&a, &vec![]).is_empty());
    // proofs come out ascending.
    for q in &p {
        assert!(q.windows(2).all(|w| w[0] < w[1]));
    }
}

#[test]
fn product_minimizes() {
    let a: ProofSet = vec![vec![1]];
    let b: ProofSet = vec![vec![], vec![2]];
    assert_eq!(as_sets(&product(&a, &b)), sets(&[&[1]]));
}

#[test]
fn complement_is_the_negation() {
    // ¬(x1 ∨ (x2 ∧ x3)) = ¬x1 ∧ (¬x2 ∨ ¬x3)
    let ps: ProofSet = vec![vec![1], vec![2, 3]];
    let c = complement(&ps, MAX_PROOFS_PER_TUPLE).unwrap();
    assert_eq!(as_sets(&c), sets(&[&[-2, -1], &[-3, -1]]));
    // in every world over facts 1..3 the complement holds exactly where ps does not.
    for mask in 0u32..8 {
        let present: Vec<i64> = (1..=3).filter(|i| mask & (1 << (i - 1)) != 0).collect();
        assert_eq!(holds(&c, &present), !holds(&ps, &present));
    }
}

#[test]
fn complement_of_nothing_and_of_truth() {
    // ¬false = true (the empty proof); ¬true = false (no proof).
    assert_eq!(as_sets(&complement(&vec![], 10).unwrap()), sets(&[&[]]));
    assert!(complement(&vec![vec![]], 10).unwrap().is_empty());
}

#[test]
fn complement_refuses_past_the_budget() {
    // ¬((1∧2) ∨ (3∧4)) has 4 minimal proofs; a budget of 3 refuses it.
    let ps: ProofSet = vec![vec![1, 2], vec![3, 4]];
    assert!(complement(&ps, 3).is_none());
    assert_eq!(complement(&ps, 4).unwrap().len(), 4);
}

#[test]
fn query_filters_by_pattern_in_order() {
    let db = ProvDb {
        rels: vec![
            ("edge".to_string(), vec![(vec![0, 1], vec![vec![1]]), (vec![0, 2], vec![vec![]]), (vec![1, 2], vec![vec![2], vec![-1, 3]])]),
            ("path".to_string(), vec![]),
        ],
    };
    assert_eq!(db.relation("edge").map(|r| r.len()), Some(3));
    assert_eq!(db.relation("path").map(|r| r.len()), Some(0));
    assert!(db.relation("nope").is_none());
    let q = db.query("edge", &[Some(0), None]);
    assert_eq!(q, vec![(vec![0, 1], vec![vec![1]]), (vec![0, 2], vec![vec![]])]);
    let q = db.query("edge", &[None, Some(2)]);
    assert_eq!(q, vec![(vec![0, 2], vec![vec![]]), (vec![1, 2], vec![vec![2], vec![-1, 3]])]);
    // a pattern of the wrong arity matches nothing; an unknown predicate gives nothing.
    assert!(db.query("edge", &[None]).is_empty());
    assert!(db.query("nope", &[]).is_empty());
    assert_eq!(ProvMode::TopK(3), ProvMode::TopK(3));
    assert_ne!(ProvMode::Exact, ProvMode::TopK(1));
}
