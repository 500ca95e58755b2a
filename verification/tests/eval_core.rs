use strata_k::eval::coreir::{is_aggregate_rule, CoreAtom, CoreLiteral, CorePred, CoreProgram, CoreRule, CoreTerm};
use strata_k::eval::naive::{
    build_head, eval_aggregate_rule, fold_aggregate, ground_atom, head_arg_value, pred_stratum, solve, unify, EvalError, Unsupported,
};
use strata_k::eval::store::{same_tuple, Db, Relation};
use strata_k::eval::value::{Ann, GroundVal, Semiring, TropOverflow, Weight};
use strata_k::front::ir::AggOp;

fn s(x: u32) -> GroundVal {
    GroundVal::Sym(x)
}

fn i(x: i64) -> GroundVal {
    GroundVal::Int(x)
}

fn var(slot: u32) -> CoreTerm {
    CoreTerm::Var { slot }
}

#[test]
fn tropical_weights() {
    let w = Weight::Finite;
    assert_eq!(w(3).oplus(w(5)), w(3));
    assert_eq!(w(5).oplus(Weight::PosInf), w(5));
    assert_eq!(Weight::PosInf.oplus(Weight::PosInf), Weight::PosInf);
    assert_eq!(w(3).otimes(w(4)), Ok(w(7)));
    assert_eq!(w(3).otimes(Weight::PosInf), Ok(Weight::PosInf));
    assert_eq!(w(i64::MAX).otimes(w(1)), Err(TropOverflow));
    assert_eq!(w(i64::MIN).otimes(w(-1)), Err(TropOverflow));
    assert!(w(1).lt(Weight::PosInf) && !Weight::PosInf.lt(w(1)) && !w(2).lt(w(2)));
    assert_eq!(Weight::otimes_id(), w(0));
}

#[test]
fn annotations() {
    assert_eq!(Ann::Unit.oplus(Ann::Unit), (Ann::Unit, false));
    assert_eq!(Ann::W(Weight::Finite(5)).oplus(Ann::W(Weight::Finite(2))), (Ann::W(Weight::Finite(2)), true));
    assert_eq!(Ann::W(Weight::Finite(2)).oplus(Ann::W(Weight::Finite(5))), (Ann::W(Weight::Finite(2)), false));
    assert_eq!(Ann::W(Weight::Finite(2)).otimes(Ann::W(Weight::Finite(5))), Ok(Ann::W(Weight::Finite(7))));
    assert_eq!(Ann::Unit.otimes(Ann::Unit), Ok(Ann::Unit));
    assert_eq!(Ann::otimes_id(Semiring::Trop), Ann::W(Weight::Finite(0)));
    assert_eq!(Ann::otimes_id(Semiring::Bool), Ann::Unit);
    assert_eq!(Ann::from_weight(None), Ann::Unit);
    assert_eq!(Ann::from_weight(Some(Weight::PosInf)), Ann::W(Weight::PosInf));
}

#[test]
fn relation_combine() {
    let mut r = Relation::new(2, Semiring::Trop);
    assert!(r.is_empty());
    assert!(r.combine(vec![s(1), s(2)], Ann::W(Weight::Finite(5))));
    assert!(!r.combine(vec![s(1), s(2)], Ann::W(Weight::Finite(7))));
    assert!(r.combine(vec![s(1), s(2)], Ann::W(Weight::Finite(4))));
    assert!(r.combine(vec![s(2), s(1)], Ann::W(Weight::Finite(9))));
    assert_eq!(r.len(), 2);
    assert_eq!(r.find(&vec![s(1), s(2)]).map(|k| r.rows[k].1), Some(Ann::W(Weight::Finite(4))));
    assert_eq!(r.find(&vec![s(3)]), None);
    assert!(same_tuple(&vec![i(1)], &vec![i(1)]) && !same_tuple(&vec![i(1)], &vec![s(1)]));
}

fn pred(name: &str, arity: u32, semiring: Semiring, stratum: u32) -> CorePred {
    CorePred { name: name.to_string(), arity, semiring, stratum }
}

#[test]
fn database_from_program() {
    let prog = CoreProgram {
        predicates: vec![pred("edge", 2, Semiring::Bool, 0), pred("path", 2, Semiring::Bool, 0), pred("edge", 2, Semiring::Trop, 1)],
        rules: vec![],
        num_strata: 2,
    };
    let mut db = Db::from_program(&prog);
    assert_eq!(db.rels.len(), 2);
    assert_eq!(db.relation("edge").map(|r| r.semiring), Some(Semiring::Trop));
    assert!(db.relation("nope").is_none());
    assert!(db.insert("path", vec![s(1), s(2)], Ann::Unit));
    assert!(!db.insert("path", vec![s(1), s(2)], Ann::Unit));
    assert_eq!(db.relation("path").map(|r| r.len()), Some(1));
    assert_eq!(pred_stratum(&prog.predicates, "edge"), Some(1));
    assert_eq!(pred_stratum(&prog.predicates, "path"), Some(0));
    assert_eq!(pred_stratum(&prog.predicates, "nope"), None);
}

#[test]
fn unification_and_grounding() {
    let args = vec![var(0), CoreTerm::Const { sym: 7 }, var(0), var(1)];
    let mut b = vec![None, None];
    assert!(unify(&args, &vec![s(1), s(7), s(1), i(3)], &mut b));
    assert_eq!(b, vec![Some(s(1)), Some(i(3))]);
    let mut b = vec![None, None];
    assert!(!unify(&args, &vec![s(1), s(7), s(2), i(3)], &mut b));
    let mut b = vec![None, None];
    assert!(!unify(&args, &vec![s(1), s(7)], &mut b));
    let mut b = vec![None, None];
    assert!(!unify(&vec![CoreTerm::Int { value: 4 }], &vec![i(5)], &mut b));

    let atom = CoreAtom { pred: "p".to_string(), args: vec![var(0), CoreTerm::Int { value: 4 }, var(1)] };
    assert_eq!(ground_atom(&atom, &vec![Some(s(1)), Some(s(2))], true), Ok(vec![s(1), i(4), s(2)]));
    assert_eq!(ground_atom(&atom, &vec![Some(s(1)), None], true), Err(EvalError::UnsafeNegVar(1)));
    assert_eq!(build_head(&atom, &vec![None, Some(s(2))]), Err(EvalError::UnsafeHeadVar(0)));
    let agg = CoreAtom { pred: "p".to_string(), args: vec![CoreTerm::Agg { op: AggOp::Sum, slot: 0 }] };
    assert_eq!(ground_atom(&agg, &vec![Some(i(1))], false), Err(EvalError::Unsupported(Unsupported::AggregateInAtomPosition)));
    assert_eq!(head_arg_value(&var(0), &vec![Some(i(2))]), Ok(i(2)));
    assert_eq!(head_arg_value(&CoreTerm::Agg { op: AggOp::Min, slot: 0 }, &vec![Some(i(2))]), Err(EvalError::MalformedAggregateHead));
}

#[test]
fn aggregates_fold() {
    let vals = vec![i(4), i(-2), i(9)];
    assert_eq!(fold_aggregate(AggOp::Count, &vals), Ok(3));
    assert_eq!(fold_aggregate(AggOp::Sum, &vals), Ok(11));
    assert_eq!(fold_aggregate(AggOp::Min, &vals), Ok(-2));
    assert_eq!(fold_aggregate(AggOp::Max, &vals), Ok(9));
    assert_eq!(fold_aggregate(AggOp::Min, &vec![]), Err(EvalError::NonIntegerAggregand));
    assert_eq!(fold_aggregate(AggOp::Sum, &vec![]), Ok(0));
    assert_eq!(fold_aggregate(AggOp::Sum, &vec![i(1), s(2)]), Err(EvalError::NonIntegerAggregand));
    assert_eq!(fold_aggregate(AggOp::Count, &vec![s(1), s(2)]), Ok(2));
    assert_eq!(fold_aggregate(AggOp::ProbOr, &vals), Err(EvalError::Unsupported(Unsupported::ProbOrAggregate)));
}

#[test]
fn solving_a_rule_body() {
    // path(X, Z) :- edge(X, Y), edge(Y, Z), not blocked(Z).
    let prog = CoreProgram {
        predicates: vec![pred("edge", 2, Semiring::Bool, 0), pred("blocked", 1, Semiring::Bool, 0), pred("path", 2, Semiring::Bool, 1)],
        rules: vec![],
        num_strata: 2,
    };
    let mut db = Db::from_program(&prog);
    for (a, b) in [(1, 2), (2, 3), (2, 4)] {
        db.insert("edge", vec![s(a), s(b)], Ann::Unit);
    }
    db.insert("blocked", vec![s(4)], Ann::Unit);
    let body = vec![
        CoreLiteral::Pos(CoreAtom { pred: "edge".to_string(), args: vec![var(0), var(1)] }),
        CoreLiteral::Pos(CoreAtom { pred: "edge".to_string(), args: vec![var(1), var(2)] }),
        CoreLiteral::Neg(CoreAtom { pred: "blocked".to_string(), args: vec![var(2)] }),
    ];
    let mut out = Vec::new();
    assert_eq!(solve(&db, &prog.predicates, 1, &body, 0, &vec![None, None, None], Ann::Unit, &mut out), Ok(()));
    assert_eq!(out, vec![(vec![Some(s(1)), Some(s(2)), Some(s(3))], Ann::Unit)]);
    // a negated predicate of the same stratum is refused
    let mut out = Vec::new();
    assert_eq!(
        solve(&db, &prog.predicates, 0, &body, 0, &vec![None, None, None], Ann::Unit, &mut out),
        Err(EvalError::NegationNotStratified { pred: "blocked".to_string() })
    );
    // an unknown predicate is reported
    let bad = vec![CoreLiteral::Pos(CoreAtom { pred: "nope".to_string(), args: vec![var(0)] })];
    let mut out = Vec::new();
    assert_eq!(solve(&db, &prog.predicates, 1, &bad, 0, &vec![None], Ann::Unit, &mut out), Err(EvalError::UnknownPred("nope".to_string())));
    let rule = CoreRule { head: CoreAtom { pred: "path".to_string(), args: vec![var(0), CoreTerm::Agg { op: AggOp::Count, slot: 2 }] }, body, var_count: 3, stratum: 1 };
    assert!(is_aggregate_rule(&rule));
}

#[test]
fn tropical_products_along_a_body() {
    let prog = CoreProgram { predicates: vec![pred("e", 2, Semiring::Trop, 0)], rules: vec![], num_strata: 1 };
    let mut db = Db::from_program(&prog);
    db.insert("e", vec![s(1), s(2)], Ann::W(Weight::Finite(3)));
    db.insert("e", vec![s(2), s(3)], Ann::W(Weight::Finite(4)));
    let body = vec![
        CoreLiteral::Pos(CoreAtom { pred: "e".to_string(), args: vec![var(0), var(1)] }),
        CoreLiteral::Pos(CoreAtom { pred: "e".to_string(), args: vec![var(1), var(2)] }),
    ];
    let mut out = Vec::new();
    assert_eq!(solve(&db, &prog.predicates, 0, &body, 0, &vec![None, None, None], Ann::W(Weight::Finite(0)), &mut out), Ok(()));
    assert_eq!(out, vec![(vec![Some(s(1)), Some(s(2)), Some(s(3))], Ann::W(Weight::Finite(7)))]);
    let mut db2 = Db::from_program(&prog);
    db2.insert("e", vec![s(1), s(1)], Ann::W(Weight::Finite(i64::MAX)));
    let mut out = Vec::new();
    assert_eq!(
        solve(&db2, &prog.predicates, 0, &body, 0, &vec![None, None, None], Ann::W(Weight::Finite(0)), &mut out),
        Err(EvalError::Overflow(TropOverflow))
    );
}

#[test]
fn aggregate_rule_groups_and_folds() {
    // total(X, sum<W>) :- cost(X, W).   cost in stratum 0, total in stratum 1
    let prog = CoreProgram {
        predicates: vec![pred("cost", 2, Semiring::Bool, 0), pred("total", 2, Semiring::Bool, 1)],
        rules: vec![],
        num_strata: 2,
    };
    let mut db = Db::from_program(&prog);
    for (x, w) in [(1, 4), (2, 5), (1, 6), (1, -1)] {
        db.insert("cost", vec![s(x), i(w)], Ann::Unit);
    }
    let rule = CoreRule {
        head: CoreAtom { pred: "total".to_string(), args: vec![var(0), CoreTerm::Agg { op: AggOp::Sum, slot: 1 }] },
        body: vec![CoreLiteral::Pos(CoreAtom { pred: "cost".to_string(), args: vec![var(0), var(1)] })],
        var_count: 2,
        stratum: 1,
    };
    assert_eq!(eval_aggregate_rule(&mut db, &rule, &prog.predicates, 1), Ok(()));
    let total = db.relation("total").unwrap();
    assert_eq!(total.len(), 2);
    assert!(total.find(&vec![s(1), i(9)]).is_some());
    assert!(total.find(&vec![s(2), i(5)]).is_some());
    // a body predicate of the same stratum is refused
    let mut db2 = Db::from_program(&prog);
    assert_eq!(
        eval_aggregate_rule(&mut db2, &rule, &prog.predicates, 0),
        Err(EvalError::AggregateInRecursion { pred: "cost".to_string() })
    );
    // two aggregate terms in the head are refused
    let two = CoreRule {
        head: CoreAtom { pred: "total".to_string(), args: vec![CoreTerm::Agg { op: AggOp::Min, slot: 0 }, CoreTerm::Agg { op: AggOp::Max, slot: 1 }] },
        body: vec![CoreLiteral::Pos(CoreAtom { pred: "cost".to_string(), args: vec![var(0), var(1)] })],
        var_count: 2,
        stratum: 1,
    };
    assert_eq!(eval_aggregate_rule(&mut db2, &two, &prog.predicates, 1), Err(EvalError::MalformedAggregateHead));
    // counting symbols is fine; summing them is not
    let count = CoreRule {
        head: CoreAtom { pred: "total".to_string(), args: vec![var(1), CoreTerm::Agg { op: AggOp::Count, slot: 0 }] },
        body: vec![CoreLiteral::Pos(CoreAtom { pred: "cost".to_string(), args: vec![var(0), var(1)] })],
        var_count: 2,
        stratum: 1,
    };
    let mut db3 = Db::from_program(&prog);
    db3.insert("cost", vec![s(1), i(4)], Ann::Unit);
    db3.insert("cost", vec![s(2), i(4)], Ann::Unit);
    assert_eq!(eval_aggregate_rule(&mut db3, &count, &prog.predicates, 1), Ok(()));
    assert!(db3.relation("total").unwrap().find(&vec![i(4), i(2)]).is_some());
}
