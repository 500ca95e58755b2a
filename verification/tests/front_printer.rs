use strata_k::diag::Span;
use strata_k::front::ir::{
    AggOp, Annotation, ArgType, Atom, Completeness, Determinism, DomainDecl, Effects, Fact, InputDecl, Item, ItemKind,
    Literal, NeuralSpec, Pragma, PredDecl, Program, Query, QueryKind, Rule, Signature, Term, Termination, Trivia, Weight,
};
use strata_k::front::printer::print_program;

fn v(n: &str) -> Term {
    Term::Var { name: n.to_string() }
}

fn c(n: &str) -> Term {
    Term::Const { name: n.to_string() }
}

fn at(p: &str, args: Vec<Term>) -> Atom {
    Atom { pred: p.to_string(), args }
}

fn item(node: ItemKind) -> Item {
    Item { node, trivia: Trivia { leading: vec![], blank_before: false }, span: Span { start: 0, end: 0 } }
}

fn defaults() -> Effects {
    Effects { termination: Termination::Total, completeness: Completeness::Complete, determinism: Determinism::Deterministic }
}

#[test]
fn prints_every_item_kind() {
    let p = Program {
        items: vec![
            item(ItemKind::Domain(DomainDecl { name: "node".to_string() })),
            item(ItemKind::Predicate(PredDecl {
                name: "edge".to_string(),
                sig: Signature {
                    args: vec![ArgType::Domain { name: "node".to_string() }, ArgType::Int],
                    annotation: Annotation::Trop,
                    effects: Effects { termination: Termination::Partial, completeness: Completeness::SoundOnly, determinism: Determinism::Stochastic },
                },
                neural: None,
            })),
            item(ItemKind::Predicate(PredDecl {
                name: "digit".to_string(),
                sig: Signature { args: vec![ArgType::Domain { name: "img".to_string() }], annotation: Annotation::Bool, effects: defaults() },
                neural: Some(NeuralSpec { model: "mnist".to_string() }),
            })),
            item(ItemKind::Predicate(PredDecl {
                name: "p".to_string(),
                sig: Signature { args: vec![ArgType::Term { name: "list".to_string() }], annotation: Annotation::ProvK { k: 3 }, effects: defaults() },
                neural: None,
            })),
            item(ItemKind::Rule(Rule {
                head: at("path", vec![v("X"), v("Z")]),
                body: vec![Literal::Pos(at("edge", vec![v("X"), v("Y")])), Literal::Neg(at("blocked", vec![v("Y")])), Literal::Pos(at("path", vec![v("Y"), v("Z")]))],
            })),
            item(ItemKind::Fact(Fact { atom: at("edge", vec![c("a"), Term::Int { value: -7 }]), weight: Some(Weight::Finite(-3)), prob: None })),
            item(ItemKind::Fact(Fact { atom: at("coin", vec![]), weight: None, prob: Some("0.5".to_string()) })),
            item(ItemKind::Fact(Fact { atom: at("far", vec![c("a")]), weight: Some(Weight::PosInf), prob: None })),
            item(ItemKind::Input(InputDecl { pred: "edge".to_string(), path: "edges.tsv".to_string() })),
            item(ItemKind::Query(Query { atom: at("path", vec![c("a"), v("X")]), kind: QueryKind::Plain })),
            item(ItemKind::Query(Query { atom: at("coin", vec![]), kind: QueryKind::Prob })),
            item(ItemKind::Query(Query { atom: at("coin", vec![]), kind: QueryKind::Grad })),
            item(ItemKind::Rule(Rule {
                head: at("best", vec![v("X"), Term::Agg { op: AggOp::Min, var: "W".to_string() }]),
                body: vec![Literal::Pos(at("cost", vec![v("X"), Term::Compound { functor: "f".to_string(), args: vec![v("W"), c("b")] }]))],
            })),
            item(ItemKind::Pragma(Pragma::Terms)),
            item(ItemKind::Pragma(Pragma::Asp)),
        ],
    };
    let expected = "domain node.\n\
pred edge(node, int): Trop partial sound_only stochastic.\n\
neural digit(img) from model \"mnist\".\n\
pred p(term list): Prov_k(3).\n\
path(X, Z) :- edge(X, Y), not blocked(Y), path(Y, Z).\n\
-3 :: edge(a, -7).\n\
0.5 :: coin().\n\
inf :: far(a).\n\
input edge from \"edges.tsv\".\n\
? path(a, X).\n\
?prob coin().\n\
?grad coin().\n\
best(X, min<W>) :- cost(X, f(W, b)).\n\
@terms.\n\
@asp.\n";
    assert_eq!(print_program(&p), expected);
}

#[test]
fn prints_comments_and_blank_lines() {
    let mut first = item(ItemKind::Domain(DomainDecl { name: "d".to_string() }));
    first.trivia = Trivia { leading: vec!["% header".to_string()], blank_before: true };
    let mut second = item(ItemKind::Fact(Fact { atom: at("p", vec![c("a")]), weight: None, prob: None }));
    second.trivia = Trivia { leading: vec!["% one".to_string(), "% two".to_string()], blank_before: true };
    let third = item(ItemKind::Fact(Fact { atom: at("q", vec![c("a")]), weight: None, prob: None }));
    let p = Program { items: vec![first, second, third] };
    // no blank line before the very first item, whatever its trivia says
    assert_eq!(print_program(&p), "% header\ndomain d.\n\n% one\n% two\np(a).\nq(a).\n");
    assert_eq!(print_program(&Program { items: vec![] }), "");
}

#[test]
fn quotes_strings_as_debug_does() {
    let p = Program {
        items: vec![item(ItemKind::Input(InputDecl { pred: "e".to_string(), path: "a \"b\" \\c".to_string() }))],
    };
    assert_eq!(print_program(&p), "input e from \"a \\\"b\\\" \\\\c\".\n");
}
