use std::collections::HashSet;

use strata_k::eval::dred::{eval, Dred, Fact, Rule, Sym, Term};

fn f(pred: &str, args: &[Sym]) -> Fact {
    (pred.to_string(), args.to_vec())
}

/// Transitive closure: path(X,Y):-edge(X,Y). path(X,Z):-edge(X,Y),path(Y,Z).
fn tc_rules() -> Vec<Rule> {
    vec![
        Rule {
            head: ("path".into(), vec![Term::Var(0), Term::Var(1)]),
            body: vec![("edge".into(), vec![Term::Var(0), Term::Var(1)])],
        },
        Rule {
            head: ("path".into(), vec![Term::Var(0), Term::Var(2)]),
            body: vec![
                ("edge".into(), vec![Term::Var(0), Term::Var(1)]),
                ("path".into(), vec![Term::Var(1), Term::Var(2)]),
            ],
        },
    ]
}

fn edges(es: &[(i64, i64)]) -> Vec<Fact> {
    let mut out: Vec<Fact> = Vec::new();
    for &(a, b) in es {
        let e = f("edge", &[a, b]);
        if !out.contains(&e) {
            out.push(e);
        }
    }
    out
}

fn set(v: &[Fact]) -> HashSet<Fact> {
    v.iter().cloned().collect()
}

#[test]
fn delete_matches_recompute_chain() {
    // chain 0->1->2->3; delete the middle edge 1->2.
    let mut d = Dred::new(edges(&[(0, 1), (1, 2), (2, 3)]), tc_rules());
    d.delete(&[f("edge", &[1, 2])]);
    let fresh = eval(&edges(&[(0, 1), (2, 3)]), &tc_rules());
    assert_eq!(set(&d.model), set(&fresh), "DRed model diverged from recompute");
    // path(0,3) must be gone; path(0,1) and path(2,3) remain.
    assert!(!d.model.contains(&f("path", &[0, 3])));
    assert!(d.model.contains(&f("path", &[0, 1])));
    assert!(d.model.contains(&f("path", &[2, 3])));
}

#[test]
fn delete_keeps_alternatively_supported_fact() {
    // 0->1, 1->2, 0->2: path(0,2) has two derivations.
    // deleting 0->2 must NOT remove path(0,2) (still via 0->1->2).
    let mut d = Dred::new(edges(&[(0, 1), (1, 2), (0, 2)]), tc_rules());
    assert!(d.model.contains(&f("path", &[0, 2])));
    d.delete(&[f("edge", &[0, 2])]);
    assert!(
        d.model.contains(&f("path", &[0, 2])),
        "rederivation should keep path(0,2) via 0->1->2"
    );
    assert_eq!(set(&d.model), set(&eval(&edges(&[(0, 1), (1, 2)]), &tc_rules())));
}

#[test]
fn fuzz_dred_equals_recompute() {
    // random graphs, random deletion sets; DRed == recompute every time.
    let mut seed = 0xDEAD_BEEFu64;
    let mut nxt = |m: i64| {
        seed = seed.wrapping_mul(6364136223846793005).wrapping_add(1);
        (seed >> 33) as i64 % m
    };
    for _ in 0..60 {
        let n = 6;
        // unique edge set (facts dedup), then split into keep / delete.
        let mut eset: std::collections::BTreeSet<(i64, i64)> = std::collections::BTreeSet::new();
        for _ in 0..10 {
            eset.insert((nxt(n), nxt(n)));
        }
        let mut d = Dred::new(edges(&eset.iter().copied().collect::<Vec<_>>()), tc_rules());
        let mut del = Vec::new();
        let mut remaining: Vec<(i64, i64)> = Vec::new();
        for &(a, b) in &eset {
            if nxt(2) == 0 {
                del.push(f("edge", &[a, b]));
            } else {
                remaining.push((a, b));
            }
        }
        d.delete(&del);
        let fresh = eval(&edges(&remaining), &tc_rules());
        assert_eq!(
            set(&d.model),
            set(&fresh),
            "DRed != recompute for edges {eset:?} del {del:?}"
        );
    }
}

#[test]
fn insert_then_delete_roundtrip() {
    let mut d = Dred::new(edges(&[(0, 1)]), tc_rules());
    d.insert(&[f("edge", &[1, 2])]);
    assert!(d.model.contains(&f("path", &[0, 2])));
    d.delete(&[f("edge", &[1, 2])]);
    assert_eq!(set(&d.model), set(&eval(&edges(&[(0, 1)]), &tc_rules())));
}

#[test]
fn eval_of_a_chain_is_its_closure() {
    let m = eval(&edges(&[(0, 1), (1, 2)]), &tc_rules());
    let want: HashSet<Fact> = [
        f("edge", &[0, 1]),
        f("edge", &[1, 2]),
        f("path", &[0, 1]),
        f("path", &[1, 2]),
        f("path", &[0, 2]),
    ]
    .into_iter()
    .collect();
    assert_eq!(set(&m), want);
    assert_eq!(m.len(), want.len());
}

#[test]
fn insert_adds_the_new_consequences() {
    let mut d = Dred::new(edges(&[(0, 1)]), tc_rules());
    d.insert(&[f("edge", &[1, 2]), f("edge", &[2, 3])]);
    assert_eq!(set(&d.model), set(&eval(&edges(&[(0, 1), (1, 2), (2, 3)]), &tc_rules())));
    assert!(d.model.contains(&f("path", &[0, 3])));
    assert_eq!(d.edb.len(), 3);
}

#[test]
fn deleting_an_absent_fact_changes_nothing() {
    let mut d = Dred::new(edges(&[(0, 1), (1, 2)]), tc_rules());
    let before = set(&d.model);
    d.delete(&[f("edge", &[5, 6])]);
    assert_eq!(set(&d.model), before);
}

#[test]
fn insert_then_delete_of_a_fresh_fact_restores_the_model() {
    let mut d = Dred::new(edges(&[(0, 1), (1, 2)]), tc_rules());
    let before = set(&d.model);
    d.insert(&[f("edge", &[2, 0])]);
    assert!(d.model.contains(&f("path", &[0, 0])));
    d.delete(&[f("edge", &[2, 0])]);
    assert_eq!(set(&d.model), before);
}
