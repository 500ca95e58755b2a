use strata_k::check::codes::{ARITY_MISMATCH, CONFLICTING_DECLARATION, NOT_EXECUTABLE, TABLE_2_4_FORBIDDEN, UNDECLARED_PRED, UNSTRATIFIABLE};
use strata_k::check::strata::check_strata;
use strata_k::diag::Span;
use strata_k::front::ir::{Annotation, ArgType, Atom, Effects, Fact, Item, ItemKind, Literal, PredDecl, Program, Rule, Signature, Term, Trivia};

fn item(node: ItemKind, at: u32) -> Item {
    Item { node, trivia: Trivia { leading: vec![], blank_before: false }, span: Span { start: at, end: at + 1 } }
}

fn decl(name: &str, arity: usize, ann: Annotation) -> ItemKind {
    let args = (0..arity).map(|_| ArgType::Domain { name: "node".to_string() }).collect();
    ItemKind::Predicate(PredDecl {
        name: name.to_string(),
        sig: Signature { args, annotation: ann, effects: Effects::default_effects() },
        neural: None,
    })
}

fn v(n: &str) -> Term {
    Term::Var { name: n.to_string() }
}

fn atom(p: &str, args: Vec<Term>) -> Atom {
    Atom { pred: p.to_string(), args }
}

fn rule(head: Atom, body: Vec<Literal>) -> ItemKind {
    ItemKind::Rule(Rule { head, body })
}

fn program(nodes: Vec<ItemKind>) -> Program {
    Program { items: nodes.into_iter().enumerate().map(|(k, n)| item(n, k as u32)).collect() }
}

#[test]
fn negation_puts_the_negated_predicate_below() {
    // reach(a). unreach(X) :- node(X), not reach(X).
    let p = program(vec![
        decl("node", 1, Annotation::Bool),
        decl("reach", 1, Annotation::Bool),
        decl("unreach", 1, Annotation::Bool),
        ItemKind::Fact(Fact { atom: atom("reach", vec![Term::Const { name: "a".to_string() }]), weight: None, prob: None }),
        rule(atom("unreach", vec![v("X")]), vec![Literal::Pos(atom("node", vec![v("X")])), Literal::Neg(atom("reach", vec![v("X")]))]),
    ]);
    let s = check_strata(&p).unwrap();
    assert_eq!(s.order, vec!["node".to_string(), "reach".to_string(), "unreach".to_string()]);
    assert_eq!(s.stratum, vec![0, 0, 1]);
    assert_eq!(s.num_strata, 2);
}

#[test]
fn positive_recursion_stays_in_one_stratum() {
    let p = program(vec![
        decl("edge", 2, Annotation::Bool),
        decl("path", 2, Annotation::Bool),
        rule(atom("path", vec![v("X"), v("Y")]), vec![Literal::Pos(atom("edge", vec![v("X"), v("Y")]))]),
        rule(atom("path", vec![v("X"), v("Z")]), vec![Literal::Pos(atom("edge", vec![v("X"), v("Y")])), Literal::Pos(atom("path", vec![v("Y"), v("Z")]))]),
    ]);
    let s = check_strata(&p).unwrap();
    assert_eq!(s.stratum, vec![0, 0]);
    assert_eq!(s.num_strata, 1);
    let empty = check_strata(&program(vec![])).unwrap();
    assert_eq!(empty.num_strata, 1);
    assert!(empty.order.is_empty());
}

#[test]
fn a_negation_cycle_is_unstratifiable() {
    let p = program(vec![
        decl("q", 1, Annotation::Bool),
        decl("p", 1, Annotation::Bool),
        rule(atom("p", vec![v("X")]), vec![Literal::Pos(atom("q", vec![v("X")])), Literal::Neg(atom("p", vec![v("X")]))]),
    ]);
    let d = check_strata(&p).unwrap_err();
    assert_eq!(d.len(), 1);
    assert_eq!(d[0].code.0, UNSTRATIFIABLE);
    assert_eq!(d[0].message, "predicate `p` depends on its own negation/aggregation through a cycle");
    assert_eq!(d[0].span, Span { start: 1, end: 2 });
}

#[test]
fn undeclared_and_wrong_arity_are_reported() {
    let p = program(vec![
        decl("p", 1, Annotation::Bool),
        rule(atom("p", vec![v("X")]), vec![Literal::Pos(atom("edge", vec![v("X"), v("X")])), Literal::Pos(atom("edge", vec![v("X")]))]),
        rule(atom("p", vec![v("X"), v("X")]), vec![Literal::Pos(atom("p", vec![v("X")]))]),
    ]);
    let d = check_strata(&p).unwrap_err();
    let codes: Vec<u32> = d.iter().map(|x| x.code.0).collect();
    assert_eq!(codes, vec![UNDECLARED_PRED, ARITY_MISMATCH]);
    assert_eq!(d[0].message, "predicate `edge` is used but never declared");
    assert_eq!(d[1].message, "predicate `p` expects 1 argument(s), found 2");
}

#[test]
fn a_conflicting_redeclaration_names_both_signatures() {
    let p = program(vec![decl("a", 1, Annotation::Bool), decl("a", 2, Annotation::ProvK { k: 3 }), decl("a", 1, Annotation::Bool)]);
    let d = check_strata(&p).unwrap_err();
    assert_eq!(d.len(), 1);
    assert_eq!(d[0].code.0, CONFLICTING_DECLARATION);
    assert_eq!(d[0].message, "predicate `a` is redeclared with a conflicting signature (arity 2 : Prov_k(3), was arity 1 : Bool)");
    assert_eq!(d[0].span, Span { start: 1, end: 2 });
}

#[test]
fn recursive_exact_provenance_is_forbidden_but_top_k_is_not() {
    let recursive = |ann: Annotation| {
        program(vec![decl("p", 1, ann), rule(atom("p", vec![v("X")]), vec![Literal::Pos(atom("p", vec![v("X")]))])])
    };
    let d = check_strata(&recursive(Annotation::Prov)).unwrap_err();
    assert_eq!(d.len(), 1);
    assert_eq!(d[0].code.0, TABLE_2_4_FORBIDDEN);
    assert!(d[0].message.contains("Prov_k"));
    assert!(check_strata(&recursive(Annotation::ProvK { k: 3 })).is_ok());
    // non-recursive exact provenance is fine
    assert!(check_strata(&program(vec![decl("p", 1, Annotation::Prov)])).is_ok());
}

#[test]
fn top_k_with_zero_proofs_is_not_executable() {
    let d = check_strata(&program(vec![decl("p", 1, Annotation::ProvK { k: 0 })])).unwrap_err();
    assert_eq!(d.len(), 1);
    assert_eq!(d[0].code.0, NOT_EXECUTABLE);
    assert_eq!(d[0].message, "`Prov_k(0)` on `p` keeps no proofs; the bound must be ≥ 1");
}
