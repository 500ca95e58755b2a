use strata_k::check::asp_decls::check_asp_declarations;
use strata_k::check::codes::{ARITY_MISMATCH, ASP_UNSUPPORTED, CONFLICTING_DECLARATION, NON_GROUND_FACT, UNDECLARED_PRED};
use strata_k::diag::{Diagnostic, Span};
use strata_k::front::ir::{
    Annotation, ArgType, Atom, Effects, Fact, InputDecl, Item, ItemKind, Literal, NeuralSpec, Pragma, PredDecl, Program, Query,
    QueryKind, Rule, Signature, Term, Trivia, Weight,
};

fn item(node: ItemKind, at: u32) -> Item {
    Item { node, trivia: Trivia { leading: vec![], blank_before: false }, span: Span { start: at, end: at + 1 } }
}

fn decl(name: &str, arity: usize, neural: bool) -> ItemKind {
    let args = (0..arity).map(|_| ArgType::Domain { name: "node".to_string() }).collect();
    ItemKind::Predicate(PredDecl {
        name: name.to_string(),
        sig: Signature { args, annotation: Annotation::Bool, effects: Effects::default_effects() },
        neural: if neural { Some(NeuralSpec { model: "m".to_string() }) } else { None },
    })
}

fn c(n: &str) -> Term {
    Term::Const { name: n.to_string() }
}

fn atom(p: &str, args: Vec<Term>) -> Atom {
    Atom { pred: p.to_string(), args }
}

fn fact(a: Atom) -> ItemKind {
    ItemKind::Fact(Fact { atom: a, weight: None, prob: None })
}

fn program(nodes: Vec<ItemKind>) -> Program {
    let mut items = vec![item(ItemKind::Pragma(Pragma::Asp), 0)];
    for (k, n) in nodes.into_iter().enumerate() {
        items.push(item(n, k as u32 + 1));
    }
    Program { items }
}

fn codes(r: Result<(), Vec<Diagnostic>>) -> Vec<u32> {
    r.unwrap_err().iter().map(|d| d.code.0).collect()
}

#[test]
fn asp_refuses_what_it_cannot_mean_e1011() {
    let prob = program(vec![decl("a", 0, false), ItemKind::Fact(Fact { atom: atom("a", vec![]), weight: None, prob: Some("0.5".to_string()) })]);
    assert!(codes(check_asp_declarations(&prob)).contains(&ASP_UNSUPPORTED));
    let weight = program(vec![decl("a", 0, false), ItemKind::Fact(Fact { atom: atom("a", vec![]), weight: Some(Weight::Finite(5)), prob: None })]);
    assert!(codes(check_asp_declarations(&weight)).contains(&ASP_UNSUPPORTED));
    let var = program(vec![decl("p", 1, false), fact(atom("p", vec![Term::Var { name: "X".to_string() }]))]);
    assert!(codes(check_asp_declarations(&var)).contains(&NON_GROUND_FACT));
    let compound = program(vec![decl("p", 1, false), fact(atom("p", vec![Term::Compound { functor: "box".to_string(), args: vec![c("a")] }]))]);
    assert!(codes(check_asp_declarations(&compound)).contains(&ASP_UNSUPPORTED));
    let query = program(vec![decl("a", 0, false), fact(atom("a", vec![])), ItemKind::Query(Query { atom: atom("a", vec![]), kind: QueryKind::Plain })]);
    assert!(codes(check_asp_declarations(&query)).contains(&ASP_UNSUPPORTED));
    let input = program(vec![decl("e", 2, false), ItemKind::Input(InputDecl { pred: "e".to_string(), path: "edges.tsv".to_string() })]);
    assert!(codes(check_asp_declarations(&input)).contains(&ASP_UNSUPPORTED));
    let neural = program(vec![decl("f", 1, true)]);
    assert!(codes(check_asp_declarations(&neural)).contains(&ASP_UNSUPPORTED));
}

#[test]
fn conflicting_redeclaration_is_rejected_e1012() {
    let p = program(vec![decl("a", 1, false), decl("a", 2, false), fact(atom("a", vec![c("x")]))]);
    let d = check_asp_declarations(&p).unwrap_err();
    assert_eq!(d.len(), 1);
    assert_eq!(d[0].code.0, CONFLICTING_DECLARATION);
    assert_eq!(d[0].message, "predicate `a` is redeclared with arity 2 (was 1)");
    assert_eq!(d[0].span, Span { start: 2, end: 3 });
    // an identical redeclaration is harmless
    let same = program(vec![decl("a", 1, false), decl("a", 1, false), fact(atom("a", vec![c("x")]))]);
    assert_eq!(check_asp_declarations(&same), Ok(()));
}

#[test]
fn asp_requires_declarations_too() {
    // a() :- not b().   with nothing declared: each predicate is reported once
    let rule = |h: &str, b: &str| ItemKind::Rule(Rule { head: atom(h, vec![]), body: vec![Literal::Neg(atom(b, vec![]))] });
    let p = program(vec![rule("a", "b"), rule("b", "a")]);
    let d = check_asp_declarations(&p).unwrap_err();
    assert_eq!(d.iter().map(|x| x.code.0).collect::<Vec<_>>(), vec![UNDECLARED_PRED, UNDECLARED_PRED]);
    assert_eq!(d[0].message, "predicate `a` is used but never declared");
    assert_eq!(d[1].message, "predicate `b` is used but never declared");
    // an arity mismatch is reported at each use
    let q = program(vec![decl("a", 1, false), ItemKind::Rule(Rule { head: atom("a", vec![]), body: vec![Literal::Neg(atom("a", vec![c("x")]))] })]);
    let d = check_asp_declarations(&q).unwrap_err();
    assert_eq!(d.len(), 1);
    assert_eq!(d[0].code.0, ARITY_MISMATCH);
    assert_eq!(d[0].message, "predicate `a` expects 1 argument(s), found 0");
    // a fully declared program passes
    let ok = program(vec![decl("a", 0, false), decl("b", 0, false), rule("a", "b"), rule("b", "a")]);
    assert_eq!(check_asp_declarations(&ok), Ok(()));
}

#[test]
fn asp_messages_name_the_construct() {
    let p = program(vec![
        decl("f", 1, true),
        decl("e", 2, false),
        ItemKind::Fact(Fact { atom: atom("e", vec![c("a"), Term::Var { name: "X".to_string() }]), weight: Some(Weight::Finite(1)), prob: None }),
        ItemKind::Query(Query { atom: atom("e", vec![c("a"), c("b")]), kind: QueryKind::Plain }),
        ItemKind::Input(InputDecl { pred: "e".to_string(), path: "e.tsv".to_string() }),
    ]);
    let d = check_asp_declarations(&p).unwrap_err();
    let msgs: Vec<&str> = d.iter().map(|x| x.message.as_str()).collect();
    assert_eq!(
        msgs,
        vec![
            "`neural f` is not supported under `@asp`: stable-model semantics has no soft facts",
            "`:: e(...)` — fact annotations (weights/probabilities) are not supported under `@asp`; stable-model facts are certain",
            "fact `e` contains a non-ground term",
            "`? e(...)` — queries are not supported under `@asp`; the run enumerates the stable models instead",
            "`input e from ...` is not supported under `@asp`; inline the facts",
        ]
    );
}
