use strata_k::check::codes;
use strata_k::check::recursion::recursive_preds;
use strata_k::check::stratify;
use strata_k::front::codes as front_codes;

#[test]
fn codes_are_unique_and_in_e1_range() {
    let mut seen = std::collections::HashSet::new();
    for (c, _) in codes::all() {
        assert!(seen.insert(c.0), "duplicate code {}", c.0);
        assert!((1000..2000).contains(&c.0), "check code {} out of E1xxx range", c.0);
    }
}

#[test]
fn codes_are_unique() {
    let mut seen = std::collections::HashSet::new();
    for (c, _) in front_codes::all() {
        assert!(seen.insert(c.0), "duplicate code {}", c.0);
    }
}

#[test]
fn unstratifiable_iteration_detects_negation_cycle() {
    // p depends on not p (self strict cycle): edges (0->0 strict).
    assert_eq!(stratify(1, &[(0, 0, true)]), Err(0));
    // positive self-loop is fine (same stratum).
    assert_eq!(stratify(1, &[(0, 0, false)]), Ok((vec![0], 1)));
}

#[test]
fn strata_are_assigned_by_strict_depth() {
    // 0 -> 1 (strict): stratum(0)=1, stratum(1)=0.
    assert_eq!(stratify(2, &[(0, 1, true)]), Ok((vec![1, 0], 2)));
}

#[test]
fn stratify_chains_strict_edges() {
    // 0 -strict-> 1 -strict-> 2: three strata, deepest first.
    assert_eq!(stratify(3, &[(0, 1, true), (1, 2, true)]), Ok((vec![2, 1, 0], 3)));
    // a positive edge keeps the source at least at the target's stratum.
    assert_eq!(stratify(2, &[(0, 1, false)]), Ok((vec![0, 0], 1)));
    // no predicates: one (empty) stratum.
    assert_eq!(stratify(0, &[]), Ok((vec![], 1)));
}

#[test]
fn stratify_rejects_a_strict_cycle_through_two_predicates() {
    let r = stratify(2, &[(0, 1, true), (1, 0, false)]);
    assert!(r.is_err());
}

#[test]
fn recursion_is_membership_on_a_cycle() {
    // 0 -> 1 -> 2 -> 1 (a cycle through 1 and 2), 3 -> 3 (self loop), 4 isolated, 0 -> 4.
    let edges = [(0, 1, false), (1, 2, true), (2, 1, false), (3, 3, false), (0, 4, false)];
    assert_eq!(recursive_preds(5, &edges), vec![false, true, true, true, false]);
    assert_eq!(recursive_preds(0, &[]), Vec::<bool>::new());
    assert_eq!(recursive_preds(2, &[(0, 1, false)]), vec![false, false]);
}
