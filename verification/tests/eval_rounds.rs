use strata_k::eval::coreir::{CoreAtom, CoreLiteral, CorePred, CoreProgram, CoreRule, CoreTerm};
use strata_k::eval::naive::EvalError;
use strata_k::eval::round::{
    apply_facts, apply_round, apply_tracked, derive_delta_round, derive_round, derive_rule, idb_has, pick_rows,
    saturate_rules, saturate_rules_semi_naive, unbound_binding,
};
use strata_k::eval::store::Db;
use strata_k::eval::value::{Ann, GroundVal, Semiring, Weight};

fn s(x: u32) -> GroundVal {
    GroundVal::Sym(x)
}

fn var(slot: u32) -> CoreTerm {
    CoreTerm::Var { slot }
}

fn atom(p: &str, args: Vec<CoreTerm>) -> CoreAtom {
    CoreAtom { pred: p.to_string(), args }
}

fn pred(name: &str, arity: u32, semiring: Semiring, stratum: u32) -> CorePred {
    CorePred { name: name.to_string(), arity, semiring, stratum }
}

/// path(X, Y) :- edge(X, Y).   path(X, Z) :- path(X, Y), edge(Y, Z).
fn closure(sem: Semiring) -> CoreProgram {
    CoreProgram {
        predicates: vec![pred("edge", 2, sem, 0), pred("path", 2, sem, 0)],
        rules: vec![
            CoreRule {
                head: atom("path", vec![var(0), var(1)]),
                body: vec![CoreLiteral::Pos(atom("edge", vec![var(0), var(1)]))],
                var_count: 2,
                stratum: 0,
            },
            CoreRule {
                head: atom("path", vec![var(0), var(2)]),
                body: vec![
                    CoreLiteral::Pos(atom("path", vec![var(0), var(1)])),
                    CoreLiteral::Pos(atom("edge", vec![var(1), var(2)])),
                ],
                var_count: 3,
                stratum: 0,
            },
        ],
        num_strata: 1,
    }
}

fn chain_db(prog: &CoreProgram, ann: Ann) -> Db {
    let mut db = Db::from_program(prog);
    for (a, b) in [(1, 2), (2, 3), (3, 4)] {
        db.insert("edge", vec![s(a), s(b)], ann);
    }
    db
}

fn has(db: &Db, p: &str, t: Vec<GroundVal>) -> Option<Ann> {
    let rel = db.relation(p)?;
    rel.find(&t).map(|k| rel.rows[k].1)
}

#[test]
fn one_rule_derives_its_head_facts() {
    let prog = closure(Semiring::Bool);
    let db = chain_db(&prog, Ann::Unit);
    let mut out = Vec::new();
    assert_eq!(derive_rule(&db, &prog.predicates, 0, &prog.rules[0], None, &mut out), Ok(()));
    assert_eq!(out.len(), 3);
    assert_eq!(out[0], ("path".to_string(), vec![s(1), s(2)], Ann::Unit));
    assert_eq!(unbound_binding(3), vec![None, None, None]);
    // a head without a relation
    let bad = CoreRule { head: atom("nope", vec![var(0)]), body: vec![], var_count: 1, stratum: 0 };
    assert_eq!(derive_rule(&db, &prog.predicates, 0, &bad, None, &mut out), Err(EvalError::UnknownPred("nope".to_string())));
}

#[test]
fn naive_round_and_application() {
    let prog = closure(Semiring::Bool);
    let mut db = chain_db(&prog, Ann::Unit);
    let facts = derive_round(&prog, &db, 0).unwrap();
    // path is empty: only the first rule fires
    assert_eq!(facts.len(), 3);
    assert_eq!(apply_facts(&mut db, &facts), Ok(true));
    assert_eq!(db.relation("path").unwrap().len(), 3);
    // applying the same facts again changes nothing
    assert_eq!(apply_facts(&mut db, &facts), Ok(false));
    let unknown = vec![("nope".to_string(), vec![s(1)], Ann::Unit)];
    assert_eq!(apply_facts(&mut db, &unknown), Err(EvalError::UnknownPred("nope".to_string())));
}

#[test]
fn naive_saturation_reaches_the_closure() {
    let prog = closure(Semiring::Bool);
    let mut db = chain_db(&prog, Ann::Unit);
    assert_eq!(saturate_rules(&prog, &mut db, 0, false, 4), Ok(()));
    let path = db.relation("path").unwrap();
    assert_eq!(path.len(), 6);
    assert_eq!(has(&db, "path", vec![s(1), s(4)]), Some(Ann::Unit));
    assert_eq!(has(&db, "path", vec![s(4), s(1)]), None);
    // a saturated database derives nothing new
    let facts = derive_round(&prog, &db, 0).unwrap();
    assert_eq!(apply_facts(&mut db, &facts), Ok(false));
}

#[test]
fn semi_naive_saturation_agrees_with_naive() {
    for sem in [Semiring::Bool, Semiring::Trop] {
        let prog = closure(sem);
        let ann = if sem == Semiring::Bool { Ann::Unit } else { Ann::W(Weight::Finite(2)) };
        let mut naive = chain_db(&prog, ann);
        let mut semi = chain_db(&prog, ann);
        assert_eq!(saturate_rules(&prog, &mut naive, 0, sem == Semiring::Trop, 4), Ok(()));
        assert_eq!(saturate_rules_semi_naive(&prog, &mut semi, 0, sem == Semiring::Trop, 4), Ok(()));
        for a in 1..5u32 {
            for b in 1..5u32 {
                assert_eq!(has(&naive, "path", vec![s(a), s(b)]), has(&semi, "path", vec![s(a), s(b)]));
            }
        }
    }
}

#[test]
fn tropical_closure_keeps_the_shortest_weight() {
    let prog = closure(Semiring::Trop);
    let mut db = Db::from_program(&prog);
    db.insert("edge", vec![s(1), s(2)], Ann::W(Weight::Finite(5)));
    db.insert("edge", vec![s(2), s(3)], Ann::W(Weight::Finite(1)));
    db.insert("edge", vec![s(1), s(3)], Ann::W(Weight::Finite(9)));
    assert_eq!(saturate_rules(&prog, &mut db, 0, true, 3), Ok(()));
    assert_eq!(has(&db, "path", vec![s(1), s(3)]), Some(Ann::W(Weight::Finite(6))));
    let mut semi = Db::from_program(&prog);
    semi.insert("edge", vec![s(1), s(2)], Ann::W(Weight::Finite(5)));
    semi.insert("edge", vec![s(2), s(3)], Ann::W(Weight::Finite(1)));
    semi.insert("edge", vec![s(1), s(3)], Ann::W(Weight::Finite(9)));
    assert_eq!(saturate_rules_semi_naive(&prog, &mut semi, 0, true, 3), Ok(()));
    assert_eq!(has(&semi, "path", vec![s(1), s(3)]), Some(Ann::W(Weight::Finite(6))));
}

#[test]
fn negative_cycle_is_reported() {
    let prog = closure(Semiring::Trop);
    for semi in [false, true] {
        let mut db = Db::from_program(&prog);
        db.insert("edge", vec![s(1), s(2)], Ann::W(Weight::Finite(1)));
        db.insert("edge", vec![s(2), s(1)], Ann::W(Weight::Finite(-3)));
        let r = if semi {
            saturate_rules_semi_naive(&prog, &mut db, 0, true, 2)
        } else {
            saturate_rules(&prog, &mut db, 0, true, 2)
        };
        assert_eq!(r, Err(EvalError::NegativeWeightCycle));
    }
}

#[test]
fn rounds_track_the_changed_tuples() {
    let prog = closure(Semiring::Bool);
    let mut db = chain_db(&prog, Ann::Unit);
    // bootstrap: the three edges become paths
    let d1 = apply_round(&prog, &mut db, 0, None).unwrap();
    assert_eq!(d1.len(), 3);
    assert!(idb_has(&prog, 0, "path") && !idb_has(&prog, 0, "edge") && !idb_has(&prog, 1, "path"));
    assert_eq!(pick_rows(&d1, "path").len(), 3);
    assert_eq!(pick_rows(&d1, "edge").len(), 0);
    // the delta round joins only the new paths: the two paths of length 2
    let facts = derive_delta_round(&prog, &db, 0, &d1).unwrap();
    assert_eq!(facts.len(), 2);
    let d2 = apply_round(&prog, &mut db, 0, Some(&d1)).unwrap();
    assert_eq!(d2.len(), 2);
    let d3 = apply_round(&prog, &mut db, 0, Some(&d2)).unwrap();
    assert_eq!(d3, vec![("path".to_string(), vec![s(1), s(4)], Ann::Unit)]);
    let d4 = apply_round(&prog, &mut db, 0, Some(&d3)).unwrap();
    assert!(d4.is_empty());
    // a tuple changed twice in one round is reported once, with its last value
    let mut t = Db::from_program(&closure(Semiring::Trop));
    let facts = vec![
        ("path".to_string(), vec![s(1), s(2)], Ann::W(Weight::Finite(7))),
        ("path".to_string(), vec![s(1), s(2)], Ann::W(Weight::Finite(3))),
        ("path".to_string(), vec![s(1), s(2)], Ann::W(Weight::Finite(5))),
    ];
    assert_eq!(apply_tracked(&mut t, &facts), Ok(vec![("path".to_string(), vec![s(1), s(2)], Ann::W(Weight::Finite(3)))]));
}
