use strata_k::eval::coreir::{CoreAtom, CoreLiteral, CorePred, CoreProgram, CoreRule, CoreTerm};
use strata_k::eval::naive::{fold_aggregate, EvalError};
use strata_k::eval::run::{pred_semiring, run, run_semi_naive, saturate_stratum, stratum_is_trop, symbols};
use strata_k::eval::store::Db;
use strata_k::eval::value::{Ann, GroundVal, Semiring, Weight};
use strata_k::front::ir::AggOp;

fn s(x: u32) -> GroundVal {
    GroundVal::Sym(x)
}

fn i(x: i64) -> GroundVal {
    GroundVal::Int(x)
}

fn var(slot: u32) -> CoreTerm {
    CoreTerm::Var { slot }
}

fn atom(p: &str, args: Vec<CoreTerm>) -> CoreAtom {
    CoreAtom { pred: p.to_string(), args }
}

fn pred(name: &str, arity: u32, semiring: Semiring, stratum: u32) -> CorePred {
    CorePred { name: name.to_string(), arity, semiring, stratum }
}

fn has(db: &Db, p: &str, t: Vec<GroundVal>) -> Option<Ann> {
    let rel = db.relation(p)?;
    rel.find(&t).map(|k| rel.rows[k].1)
}

/// reach(X, Y) :- edge(X, Y).  reach(X, Z) :- reach(X, Y), edge(Y, Z).
/// unreached(X) :- node(X), not reach(1, X).          (stratum 1)
/// fanout(X, count<Y>) :- edge(X, Y).                 (stratum 1)
fn program() -> CoreProgram {
    CoreProgram {
        predicates: vec![
            pred("edge", 2, Semiring::Bool, 0),
            pred("node", 1, Semiring::Bool, 0),
            pred("reach", 2, Semiring::Bool, 0),
            pred("unreached", 1, Semiring::Bool, 1),
            pred("fanout", 2, Semiring::Bool, 1),
        ],
        rules: vec![
            CoreRule { head: atom("reach", vec![var(0), var(1)]), body: vec![CoreLiteral::Pos(atom("edge", vec![var(0), var(1)]))], var_count: 2, stratum: 0 },
            CoreRule {
                head: atom("reach", vec![var(0), var(2)]),
                body: vec![CoreLiteral::Pos(atom("reach", vec![var(0), var(1)])), CoreLiteral::Pos(atom("edge", vec![var(1), var(2)]))],
                var_count: 3,
                stratum: 0,
            },
            CoreRule {
                head: atom("unreached", vec![var(0)]),
                body: vec![
                    CoreLiteral::Pos(atom("node", vec![var(0)])),
                    CoreLiteral::Neg(atom("reach", vec![CoreTerm::Const { sym: 1 }, var(0)])),
                ],
                var_count: 1,
                stratum: 1,
            },
            CoreRule {
                head: atom("fanout", vec![var(0), CoreTerm::Agg { op: AggOp::Count, slot: 1 }]),
                body: vec![CoreLiteral::Pos(atom("edge", vec![var(0), var(1)]))],
                var_count: 2,
                stratum: 1,
            },
        ],
        num_strata: 2,
    }
}

fn edb() -> Vec<(String, Vec<GroundVal>, Ann)> {
    let mut f = Vec::new();
    for (a, b) in [(1, 2), (2, 3), (1, 3), (4, 5)] {
        f.push(("edge".to_string(), vec![s(a), s(b)], Ann::Unit));
    }
    for n in 1..6 {
        f.push(("node".to_string(), vec![s(n)], Ann::Unit));
    }
    f
}

#[test]
fn run_reaches_the_stratified_model() {
    let db = run(&program(), &edb()).unwrap();
    assert_eq!(db.relation("reach").unwrap().len(), 4);
    assert_eq!(has(&db, "reach", vec![s(1), s(3)]), Some(Ann::Unit));
    // 1 reaches 2 and 3; 1, 4 and 5 are unreached from 1
    let unreached = db.relation("unreached").unwrap();
    assert_eq!(unreached.len(), 3);
    assert!(unreached.find(&vec![s(4)]).is_some() && unreached.find(&vec![s(2)]).is_none());
    assert_eq!(has(&db, "fanout", vec![s(1), i(2)]), Some(Ann::Unit));
    assert_eq!(has(&db, "fanout", vec![s(4), i(1)]), Some(Ann::Unit));
}

#[test]
fn semi_naive_run_gives_the_naive_model() {
    let naive = run(&program(), &edb()).unwrap();
    let semi = run_semi_naive(&program(), &edb()).unwrap();
    for p in ["edge", "node", "reach", "unreached", "fanout"] {
        let (a, b) = (naive.relation(p).unwrap(), semi.relation(p).unwrap());
        assert_eq!(a.len(), b.len());
        for (t, ann) in &a.rows {
            assert_eq!(b.find(t).map(|k| b.rows[k].1), Some(*ann));
        }
    }
}

#[test]
fn undeclared_edb_predicate_is_reported() {
    let mut f = edb();
    f.insert(2, ("nope".to_string(), vec![s(1)], Ann::Unit));
    f.push(("later".to_string(), vec![s(1)], Ann::Unit));
    assert_eq!(run(&program(), &f).unwrap_err(), EvalError::UnknownPred("nope".to_string()));
    assert_eq!(run_semi_naive(&program(), &f).unwrap_err(), EvalError::UnknownPred("nope".to_string()));
}

#[test]
fn strata_helpers() {
    let prog = program();
    assert_eq!(pred_semiring(&prog.predicates, "reach"), Some(Semiring::Bool));
    assert_eq!(pred_semiring(&prog.predicates, "nope"), None);
    assert!(!stratum_is_trop(&prog, 0));
    let mut db = Db::from_program(&prog);
    db.insert("edge", vec![s(7), i(3)], Ann::Unit);
    db.insert("node", vec![s(7)], Ann::Unit);
    db.insert("node", vec![s(8)], Ann::Unit);
    let mut syms = symbols(&db);
    syms.sort();
    assert_eq!(syms, vec![7, 8]);
    assert_eq!(saturate_stratum(&prog, &mut db, 0, false, 2, false), Ok(()));
    assert_eq!(has(&db, "reach", vec![s(7), i(3)]), Some(Ann::Unit));
}

#[test]
fn tropical_run_and_negative_cycles() {
    let prog = CoreProgram {
        predicates: vec![pred("e", 2, Semiring::Trop, 0), pred("d", 2, Semiring::Trop, 0)],
        rules: vec![
            CoreRule { head: atom("d", vec![var(0), var(1)]), body: vec![CoreLiteral::Pos(atom("e", vec![var(0), var(1)]))], var_count: 2, stratum: 0 },
            CoreRule {
                head: atom("d", vec![var(0), var(2)]),
                body: vec![CoreLiteral::Pos(atom("d", vec![var(0), var(1)])), CoreLiteral::Pos(atom("e", vec![var(1), var(2)]))],
                var_count: 3,
                stratum: 0,
            },
        ],
        num_strata: 1,
    };
    assert!(stratum_is_trop(&prog, 0));
    let w = |x: i64| Ann::W(Weight::Finite(x));
    let edges = vec![
        ("e".to_string(), vec![s(1), s(2)], w(4)),
        ("e".to_string(), vec![s(2), s(3)], w(1)),
        ("e".to_string(), vec![s(1), s(3)], w(7)),
    ];
    let db = run(&prog, &edges).unwrap();
    assert_eq!(has(&db, "d", vec![s(1), s(3)]), Some(w(5)));
    let db = run_semi_naive(&prog, &edges).unwrap();
    assert_eq!(has(&db, "d", vec![s(1), s(3)]), Some(w(5)));
    let cycle = vec![("e".to_string(), vec![s(1), s(2)], w(1)), ("e".to_string(), vec![s(2), s(1)], w(-2))];
    assert_eq!(run(&prog, &cycle).unwrap_err(), EvalError::NegativeWeightCycle);
    assert_eq!(run_semi_naive(&prog, &cycle).unwrap_err(), EvalError::NegativeWeightCycle);
}

#[test]
fn aggregate_sum_overflow_is_an_error() {
    assert_eq!(fold_aggregate(AggOp::Sum, &vec![i(i64::MAX), i(1)]), Err(EvalError::AggregateOverflow));
    assert_eq!(fold_aggregate(AggOp::Sum, &vec![i(i64::MAX), i(1), i(-5)]), Err(EvalError::AggregateOverflow));
    assert_eq!(fold_aggregate(AggOp::Sum, &vec![i(i64::MAX), i(-1)]), Ok(i64::MAX - 1));
    assert_eq!(fold_aggregate(AggOp::Count, &vec![s(1), s(2)]), Ok(2));
}

/// The same relations with the same rows, in whatever order they were derived.
fn same_content(a: &Db, b: &Db) -> bool {
    let covers = |x: &Db, y: &Db| {
        x.rels.iter().all(|(p, r)| match y.relation(p) {
            Some(q) => {
                q.arity == r.arity && q.semiring == r.semiring && q.rows.len() == r.rows.len() && r.rows.iter().all(|row| q.rows.contains(row))
            }
            None => false,
        })
    };
    a.rels.len() == b.rels.len() && covers(a, b) && covers(b, a)
}

/// Both engines, which must agree.
fn agree(prog: &CoreProgram, edb: &Vec<(String, Vec<GroundVal>, Ann)>) -> Db {
    let a = run(prog, edb).unwrap();
    let b = run_semi_naive(prog, edb).unwrap();
    assert!(same_content(&a, &b));
    a
}

#[test]
fn sssp_trop_min_plus() {
    // reach(X,Y) :- edge(X,Y).
    // reach(X,Z) :- edge(X,Y), reach(Y,Z).
    let prog = CoreProgram {
        predicates: vec![pred("edge", 2, Semiring::Trop, 0), pred("reach", 2, Semiring::Trop, 0)],
        rules: vec![
            CoreRule { head: atom("reach", vec![var(0), var(1)]), body: vec![CoreLiteral::Pos(atom("edge", vec![var(0), var(1)]))], var_count: 2, stratum: 0 },
            CoreRule {
                head: atom("reach", vec![var(0), var(2)]),
                body: vec![CoreLiteral::Pos(atom("edge", vec![var(0), var(1)])), CoreLiteral::Pos(atom("reach", vec![var(1), var(2)]))],
                var_count: 3,
                stratum: 0,
            },
        ],
        num_strata: 1,
    };
    let w = |n: i64| Ann::W(Weight::Finite(n));
    let (a, b, c) = (s(0), s(1), s(2));
    // a->b (2), b->c (3), a->c (10): shortest a..c is 5 via b, not the direct 10.
    let edb = vec![
        ("edge".to_string(), vec![a, b], w(2)),
        ("edge".to_string(), vec![b, c], w(3)),
        ("edge".to_string(), vec![a, c], w(10)),
    ];
    let db = agree(&prog, &edb);
    assert_eq!(has(&db, "reach", vec![a, b]), Some(w(2)));
    assert_eq!(has(&db, "reach", vec![b, c]), Some(w(3)));
    assert_eq!(has(&db, "reach", vec![a, c]), Some(w(5)), "min(10, 2+3)");
    assert_eq!(db.relation("reach").unwrap().rows.len(), 3);
}

/// Tiny deterministic xorshift generator (seedable for repro).
struct Rng(u64);

impl Rng {
    fn new(seed: u64) -> Self {
        Rng(seed.wrapping_mul(0x9E37_79B9_7F4A_7C15).wrapping_add(0x1234_5678))
    }
    fn next_u64(&mut self) -> u64 {
        let mut x = self.0;
        x ^= x << 13;
        x ^= x >> 7;
        x ^= x << 17;
        self.0 = x;
        x
    }
    fn below(&mut self, n: usize) -> usize {
        (self.next_u64() % n as u64) as usize
    }
    fn range(&mut self, lo: usize, hi: usize) -> usize {
        lo + self.below(hi - lo + 1)
    }
    fn chance(&mut self, pct: u64) -> bool {
        self.next_u64() % 100 < pct
    }
}

/// A random safe program (positive recursive Bool or Trop, plus stratified
/// Bool negation) over a tiny domain, with its EDB.
fn generate(seed: u64) -> (CoreProgram, Vec<(String, Vec<GroundVal>, Ann)>) {
    let mut r = Rng::new(seed);
    let trop = r.chance(50);
    let sem = if trop { Semiring::Trop } else { Semiring::Bool };
    let domain = r.range(2, 4);
    let n_pred = r.range(2, 3);
    let vars = r.range(2, 3);
    let pname = |i: usize| format!("p{i}");
    let mut predicates: Vec<CorePred> = (0..n_pred).map(|i| pred(&pname(i), 2, sem, 0)).collect();
    let mut rules: Vec<CoreRule> = Vec::new();
    let n_rules = r.range(2, 5);
    for _ in 0..n_rules {
        let n_body = r.range(1, 3);
        let mut body = Vec::new();
        let mut body_vars: Vec<u32> = Vec::new();
        for _ in 0..n_body {
            let p = r.below(n_pred);
            let a = r.below(vars) as u32;
            let b = r.below(vars) as u32;
            body_vars.push(a);
            body_vars.push(b);
            body.push(CoreLiteral::Pos(atom(&pname(p), vec![var(a), var(b)])));
        }
        let hv1 = body_vars[r.below(body_vars.len())];
        let hv2 = body_vars[r.below(body_vars.len())];
        rules.push(CoreRule { head: atom(&pname(r.below(n_pred)), vec![var(hv1), var(hv2)]), body, stratum: 0, var_count: vars as u32 });
    }
    let mut num_strata = 1;
    if !trop && n_pred >= 2 && r.chance(35) {
        let q = pname(n_pred);
        predicates.push(pred(&q, 2, Semiring::Bool, 1));
        let p = r.below(n_pred);
        let neg = r.below(n_pred);
        rules.push(CoreRule {
            head: atom(&q, vec![var(0), var(1)]),
            body: vec![CoreLiteral::Pos(atom(&pname(p), vec![var(0), var(1)])), CoreLiteral::Neg(atom(&pname(neg), vec![var(0), var(1)]))],
            stratum: 1,
            var_count: 2,
        });
        num_strata = 2;
    }
    let n_facts = r.range(2, 8);
    let mut edb = Vec::new();
    for _ in 0..n_facts {
        let p = pname(r.below(n_pred));
        let a = s(r.below(domain) as u32);
        let b = s(r.below(domain) as u32);
        let ann = if trop { Ann::W(Weight::Finite(r.range(0, 4) as i64)) } else { Ann::Unit };
        edb.push((p, vec![a, b], ann));
    }
    (CoreProgram { predicates, rules, num_strata }, edb)
}

#[test]
fn naive_equals_semi_naive_over_random_programs() {
    let n = 10_000;
    for seed in 0..n {
        let (prog, edb) = generate(seed);
        let naive = run(&prog, &edb);
        let semi = run_semi_naive(&prog, &edb);
        match (naive, semi) {
            (Ok(a), Ok(b)) => assert!(same_content(&a, &b), "naive != semi-naive at seed {seed}"),
            (Err(a), Err(b)) => assert_eq!(a, b, "engines disagree on error at seed {seed}"),
            (a, b) => panic!("one engine errored, the other didn't at seed {seed}: {a:?} vs {b:?}"),
        }
    }
}

#[test]
fn predicates_come_in_name_order() {
    let db = run(&program(), &edb()).unwrap();
    assert_eq!(db.predicates(), vec!["edge", "fanout", "node", "reach", "unreached"]);
    let empty = Db::from_program(&CoreProgram { predicates: vec![], rules: vec![], num_strata: 1 });
    assert!(empty.predicates().is_empty());
}

#[test]
fn relation_mut_changes_that_relation_only() {
    let mut db = run(&program(), &edb()).unwrap();
    let before_edge = db.relation("edge").unwrap().rows.len();
    {
        let node = db.relation_mut("node").unwrap();
        node.rows.clear();
    }
    assert_eq!(db.relation("node").unwrap().rows.len(), 0);
    assert_eq!(db.relation("edge").unwrap().rows.len(), before_edge);
    assert!(db.relation_mut("nope").is_none());
}
