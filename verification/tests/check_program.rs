use strata_k::check::codes::{FACT_ANNOTATION_MISMATCH, NEURAL_FACT_NOT_SOFT, NON_GROUND_FACT, NOT_RANGE_RESTRICTED, SEMIRING_CONFLICT, UNDECLARED_PRED};
use strata_k::check::lower::{check_program, Checked, QuerySpec};
use strata_k::diag::{Diagnostic, Span};
use strata_k::eval::coreir::{CoreAtom, CoreLiteral, CoreTerm};
use strata_k::eval::value::{GroundVal, Semiring};
use strata_k::front::ir::{
    QueryKind, Query, Annotation, ArgType, Atom, DomainDecl, Effects, Fact, Item, ItemKind, Literal, NeuralSpec, PredDecl, Program, Rule, Signature, Term,
    Trivia, Weight,
};

fn item(node: ItemKind, at: u32) -> Item {
    Item { node, trivia: Trivia { leading: vec![], blank_before: false }, span: Span { start: at, end: at + 1 } }
}

fn program(nodes: Vec<ItemKind>) -> Program {
    Program { items: nodes.into_iter().enumerate().map(|(k, n)| item(n, k as u32)).collect() }
}

fn decl(name: &str, arity: usize, ann: Annotation) -> ItemKind {
    let args = (0..arity).map(|_| ArgType::Domain { name: "node".to_string() }).collect();
    ItemKind::Predicate(PredDecl { name: name.to_string(), sig: Signature { args, annotation: ann, effects: Effects::default_effects() }, neural: None })
}

fn pred1(name: &str, ann: Annotation) -> ItemKind {
    decl(name, 1, ann)
}

fn var(n: &str) -> Term {
    Term::Var { name: n.to_string() }
}

fn c(n: &str) -> Term {
    Term::Const { name: n.to_string() }
}

fn atom(p: &str, args: Vec<Term>) -> Atom {
    Atom { pred: p.to_string(), args }
}

fn rule(head: Atom, body: Vec<Literal>) -> ItemKind {
    ItemKind::Rule(Rule { head, body })
}

fn fact(a: Atom, weight: Option<i64>, prob: Option<&str>) -> ItemKind {
    ItemKind::Fact(Fact { atom: a, weight: weight.map(Weight::Finite), prob: prob.map(|p| p.to_string()) })
}

fn codes(r: Result<Option<Checked>, Vec<Diagnostic>>) -> Vec<u32> {
    match r {
        Ok(_) => vec![],
        Err(d) => d.iter().map(|x| x.code.0).collect(),
    }
}

fn err_codes(p: &Program) -> Vec<u32> {
    codes(check_program(p))
}

#[test]
fn soft_cannot_launder_into_bool() {
    // Prov body into a Bool head would erase the taint — forbidden.
    let prog = program(vec![
        pred1("soft", Annotation::Prov),
        pred1("hard", Annotation::Bool),
        rule(atom("hard", vec![var("X")]), vec![Literal::Pos(atom("soft", vec![var("X")]))]),
    ]);
    assert!(err_codes(&prog).contains(&SEMIRING_CONFLICT));
}

#[test]
fn trop_and_prov_are_incomparable() {
    let prog = program(vec![
        pred1("w", Annotation::Trop),
        pred1("p", Annotation::Prov),
        rule(atom("p", vec![var("X")]), vec![Literal::Pos(atom("w", vec![var("X")]))]),
    ]);
    let d = check_program(&prog).unwrap_err();
    assert_eq!(d.len(), 1);
    assert_eq!(d[0].code.0, SEMIRING_CONFLICT);
    assert_eq!(d[0].message, "`w` (Trop) cannot flow into `p` (Prov); use an explicit conversion");
    assert_eq!(d[0].span, Span { start: 2, end: 3 });
}

#[test]
fn bool_flows_into_prov() {
    // pred q(node): Bool.  pred p(node): Prov.  p(X) :- q(X).  q(a).
    let prog = program(vec![
        pred1("q", Annotation::Bool),
        pred1("p", Annotation::Prov),
        rule(atom("p", vec![var("X")]), vec![Literal::Pos(atom("q", vec![var("X")]))]),
        fact(atom("q", vec![c("a")]), None, None),
    ]);
    let c = check_program(&prog).expect("Bool → Prov is a lattice edge").unwrap();
    let names: Vec<&str> = c.core.predicates.iter().map(|p| p.name.as_str()).collect();
    assert_eq!(names, vec!["q", "p"]);
}

#[test]
fn trop_into_bool_is_a_semiring_conflict() {
    let prog = program(vec![
        decl("e", 2, Annotation::Trop),
        decl("p", 2, Annotation::Bool),
        rule(atom("p", vec![var("X"), var("Y")]), vec![Literal::Pos(atom("e", vec![var("X"), var("Y")]))]),
    ]);
    assert!(err_codes(&prog).contains(&SEMIRING_CONFLICT));
}

#[test]
fn prov_flows_into_top_k_but_not_back() {
    let flow = |from: Annotation, to: Annotation| {
        let prog = program(vec![
            pred1("b", from),
            pred1("h", to),
            rule(atom("h", vec![var("X")]), vec![Literal::Pos(atom("b", vec![var("X")]))]),
        ]);
        check_program(&prog).is_ok()
    };
    assert!(flow(Annotation::Prov, Annotation::ProvK { k: 2 }));
    assert!(flow(Annotation::Bool, Annotation::Trop));
    assert!(!flow(Annotation::ProvK { k: 2 }, Annotation::Prov));
    assert!(!flow(Annotation::Prov, Annotation::Trop));
    // a negated literal carries no annotation into the head
    let prog = program(vec![
        pred1("s", Annotation::Prov),
        pred1("t", Annotation::Bool),
        pred1("h", Annotation::Bool),
        rule(atom("h", vec![var("X")]), vec![Literal::Pos(atom("t", vec![var("X")])), Literal::Neg(atom("s", vec![var("X")]))]),
    ]);
    assert!(check_program(&prog).is_ok());
}

#[test]
fn fact_annotation_contract_e1009() {
    // Every cell of the fact `::` × declared-annotation table (E1009).
    let bad = [
        program(vec![decl("e", 2, Annotation::Bool), fact(atom("e", vec![c("a"), c("b")]), Some(5), None)]),
        program(vec![pred1("p", Annotation::Prov), fact(atom("p", vec![c("a")]), Some(5), None)]),
        program(vec![pred1("r", Annotation::ProvK { k: 2 }), fact(atom("r", vec![c("a")]), Some(5), None)]),
        program(vec![decl("w", 2, Annotation::Trop), fact(atom("w", vec![c("a"), c("b")]), None, Some("0.5"))]),
        program(vec![pred1("q", Annotation::Bool), fact(atom("q", vec![c("a")]), None, Some("1.5"))]),
        program(vec![decl("w", 2, Annotation::Trop), fact(atom("w", vec![c("a"), c("b")]), None, None)]),
    ];
    for p in &bad {
        assert!(err_codes(p).contains(&FACT_ANNOTATION_MISMATCH), "must reject {p:?}");
    }
    let good = [
        program(vec![decl("e", 2, Annotation::Bool), fact(atom("e", vec![c("a"), c("b")]), None, None)]),
        program(vec![decl("e", 2, Annotation::Bool), fact(atom("e", vec![c("a"), c("b")]), None, Some("0.5"))]),
        program(vec![decl("w", 2, Annotation::Trop), fact(atom("w", vec![c("a"), c("b")]), Some(5), None)]),
        program(vec![pred1("p", Annotation::Prov), fact(atom("p", vec![c("a")]), None, None)]),
        program(vec![pred1("p", Annotation::Prov), fact(atom("p", vec![c("a")]), None, Some("0.9"))]),
    ];
    for p in &good {
        assert!(check_program(p).is_ok(), "must accept {p:?}");
    }
}

#[test]
fn fact_annotation_messages() {
    let d = check_program(&program(vec![pred1("q", Annotation::Bool), fact(atom("q", vec![c("a")]), None, Some("1.5"))])).unwrap_err();
    assert_eq!(d[0].message, "probability 1.5 on `q(...)` is outside [0, 1]");
    let d = check_program(&program(vec![decl("w", 2, Annotation::Trop), fact(atom("w", vec![c("a"), c("b")]), None, None)])).unwrap_err();
    assert_eq!(d[0].message, "`w` is declared `Trop`, so its facts must carry an integer weight (`5 :: w(...)`)");
    let d = check_program(&program(vec![pred1("r", Annotation::ProvK { k: 2 }), fact(atom("r", vec![c("a")]), Some(5), None)])).unwrap_err();
    assert_eq!(
        d[0].message,
        "the fact on `r(...)` carries an integer (tropical) weight, but `r` is declared Prov_k(2); a probability needs a decimal point (`0.5 ::`), a weight needs the predicate annotated `Trop`"
    );
    // the edges of [0, 1] are in it
    for p in ["1", "1.000", "0", "00.25", "1."] {
        assert!(check_program(&program(vec![pred1("q", Annotation::Bool), fact(atom("q", vec![c("a")]), None, Some(p))])).is_ok(), "{p}");
    }
    for p in ["1.01", "2", "10.0"] {
        assert!(check_program(&program(vec![pred1("q", Annotation::Bool), fact(atom("q", vec![c("a")]), None, Some(p))])).is_err(), "{p}");
    }
}

#[test]
fn unbound_head_variable_is_rejected() {
    // q(a).  p(X) :- q(a), not r(X).
    let prog = program(vec![
        pred1("p", Annotation::Bool),
        pred1("q", Annotation::Bool),
        pred1("r", Annotation::Bool),
        fact(atom("q", vec![c("a")]), None, None),
        rule(atom("p", vec![var("X")]), vec![Literal::Pos(atom("q", vec![c("a")])), Literal::Neg(atom("r", vec![var("X")]))]),
    ]);
    assert!(err_codes(&prog).contains(&NOT_RANGE_RESTRICTED));
}

#[test]
fn undeclared_predicate_is_rejected() {
    // pred p(node): Bool.  p(X) :- edge(X, X).
    let prog = program(vec![pred1("p", Annotation::Bool), rule(atom("p", vec![var("X")]), vec![Literal::Pos(atom("edge", vec![var("X"), var("X")]))])]);
    assert!(err_codes(&prog).contains(&UNDECLARED_PRED));
}

fn neural(name: &str, arity: usize) -> ItemKind {
    let args = (0..arity).map(|_| ArgType::Domain { name: "firm".to_string() }).collect();
    ItemKind::Predicate(PredDecl {
        name: name.to_string(),
        sig: Signature { args, annotation: Annotation::Bool, effects: Effects::default_effects() },
        neural: Some(NeuralSpec { model: "m".to_string() }),
    })
}

#[test]
fn neural_weighted_fact_is_rejected() {
    let prog = program(vec![ItemKind::Domain(DomainDecl { name: "firm".to_string() }), neural("flag", 1), fact(atom("flag", vec![c("acme")]), Some(5), None)]);
    assert!(err_codes(&prog).contains(&FACT_ANNOTATION_MISMATCH));
}

#[test]
fn neural_certain_fact_is_rejected() {
    let prog = program(vec![
        ItemKind::Domain(DomainDecl { name: "firm".to_string() }),
        ItemKind::Domain(DomainDecl { name: "label".to_string() }),
        neural("flag", 2),
        fact(atom("flag", vec![c("acme"), c("high")]), None, None),
    ]);
    let d = check_program(&prog).unwrap_err();
    assert_eq!(d[0].code.0, NEURAL_FACT_NOT_SOFT);
    assert_eq!(d[0].message, "`flag` is a neural predicate; its facts are the model's soft outputs and must be probabilistic (`p :: flag(...)`)");
    // a soft fact on it is what it is for
    let soft = program(vec![neural("flag", 1), fact(atom("flag", vec![c("acme")]), None, Some("0.7"))]);
    assert!(check_program(&soft).is_ok());
}

#[test]
fn a_fact_with_a_variable_is_not_ground() {
    let prog = program(vec![pred1("p", Annotation::Bool), fact(atom("p", vec![Term::Compound { functor: "box".to_string(), args: vec![var("X")] }]), None, None)]);
    let d = check_program(&prog).unwrap_err();
    assert_eq!(d.len(), 1);
    assert_eq!(d[0].code.0, NON_GROUND_FACT);
    assert_eq!(d[0].message, "fact `p` contains a non-ground term");
}

#[test]
fn transitive_closure_lowers() {
    // pred edge(node, node): Bool.  pred path(node, node): Bool.
    // path(X, Y) :- edge(X, Y).  path(X, Z) :- edge(X, Y), path(Y, Z).
    // edge(a, b).  edge(b, c).
    let prog = program(vec![
        decl("edge", 2, Annotation::Bool),
        decl("path", 2, Annotation::Bool),
        rule(atom("path", vec![var("X"), var("Y")]), vec![Literal::Pos(atom("edge", vec![var("X"), var("Y")]))]),
        rule(
            atom("path", vec![var("X"), var("Z")]),
            vec![Literal::Pos(atom("edge", vec![var("X"), var("Y")])), Literal::Pos(atom("path", vec![var("Y"), var("Z")]))],
        ),
        fact(atom("edge", vec![c("a"), c("b")]), None, None),
        fact(atom("edge", vec![c("b"), c("c")]), None, None),
    ]);
    let c = check_program(&prog).expect("check ok").unwrap();
    assert_eq!(c.core.num_strata, 1);
    assert_eq!(c.core.predicates.len(), 2);
    assert_eq!(c.core.rules.len(), 2);
    assert_eq!(c.edb.len(), 2);
    // constants interned
    assert_eq!(c.dict.len(), 3); // a, b, c
    let path = c.core.predicates.iter().find(|p| p.name == "path").unwrap();
    assert_eq!(path.semiring, Semiring::Bool);
    assert_eq!(path.stratum, 0);
    // the recursive rule got 3 variable slots (X, Y, Z)
    let rec = c.core.rules.iter().find(|r| r.body.len() == 2).unwrap();
    assert_eq!(rec.var_count, 3);
}

#[test]
fn stratified_negation_gets_two_strata() {
    // pred node(node): Bool.  pred reach(node): Bool.  pred unreach(node): Bool.
    // reach(a).  unreach(X) :- node(X), not reach(X).
    let prog = program(vec![
        pred1("node", Annotation::Bool),
        pred1("reach", Annotation::Bool),
        pred1("unreach", Annotation::Bool),
        fact(atom("reach", vec![c("a")]), None, None),
        rule(atom("unreach", vec![var("X")]), vec![Literal::Pos(atom("node", vec![var("X")])), Literal::Neg(atom("reach", vec![var("X")]))]),
    ]);
    let c = check_program(&prog).expect("check ok").unwrap();
    assert_eq!(c.core.num_strata, 2);
    let unreach = c.core.predicates.iter().find(|p| p.name == "unreach").unwrap();
    let reach = c.core.predicates.iter().find(|p| p.name == "reach").unwrap();
    assert!(unreach.stratum > reach.stratum, "unreach must be above reach");
}

#[test]
fn lowering_slots_symbols_facts_and_queries() {
    // pred w(node, node): Trop.  pred d(node, node): Trop.  pred s(node): Prov.
    // d(X, Y) :- w(Y, b), w(X, Y).  5 :: w(a, b).  0.25 :: s(c).  ? d(a, Z).
    let prog = program(vec![
        decl("w", 2, Annotation::Trop),
        decl("d", 2, Annotation::Trop),
        pred1("s", Annotation::Prov),
        rule(atom("d", vec![var("X"), var("Y")]), vec![Literal::Pos(atom("w", vec![var("Y"), c("b")])), Literal::Pos(atom("w", vec![var("X"), var("Y")]))]),
        fact(atom("w", vec![c("a"), c("b")]), Some(5), None),
        fact(atom("s", vec![c("c")]), None, Some("0.25")),
        ItemKind::Query(Query { atom: atom("d", vec![c("a"), var("Z")]), kind: QueryKind::Plain }),
    ]);
    let c = check_program(&prog).expect("check ok").unwrap();
    // the rule's constant `b` is interned first, then the facts' and the query's
    assert_eq!(c.dict, vec!["b".to_string(), "a".to_string(), "c".to_string()]);
    let r = &c.core.rules[0];
    assert_eq!(r.var_count, 2);
    assert_eq!(r.head, CoreAtom { pred: "d".to_string(), args: vec![CoreTerm::Var { slot: 0 }, CoreTerm::Var { slot: 1 }] });
    assert_eq!(r.body[0], CoreLiteral::Pos(CoreAtom { pred: "w".to_string(), args: vec![CoreTerm::Var { slot: 1 }, CoreTerm::Const { sym: 0 }] }));
    assert_eq!(c.edb, vec![("w".to_string(), vec![GroundVal::Sym(1), GroundVal::Sym(0)], Some(Weight::Finite(5)))]);
    assert_eq!(c.prob_edb, vec![("s".to_string(), vec![GroundVal::Sym(2)], "0.25".to_string())]);
    assert_eq!(c.queries, vec![QuerySpec { kind: QueryKind::Plain, pred: "d".to_string(), pattern: vec![Some(GroundVal::Sym(1)), None] }]);
    let kinds: Vec<(String, u32, Semiring, u32)> = c.core.predicates.iter().map(|p| (p.name.clone(), p.arity, p.semiring, p.stratum)).collect();
    assert_eq!(
        kinds,
        vec![("w".to_string(), 2, Semiring::Trop, 0), ("d".to_string(), 2, Semiring::Trop, 0), ("s".to_string(), 1, Semiring::Bool, 0)]
    );
}

#[test]
fn compound_terms_are_not_lowered() {
    let prog = program(vec![pred1("p", Annotation::Bool), fact(atom("p", vec![Term::Compound { functor: "box".to_string(), args: vec![c("a")] }]), None, None)]);
    assert!(check_program(&prog).unwrap().is_none());
}
