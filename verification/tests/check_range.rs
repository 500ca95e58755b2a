use strata_k::check::codes::NOT_RANGE_RESTRICTED;
use strata_k::check::range::check_range_restriction;
use strata_k::diag::Span;
use strata_k::front::ir::{Atom, Literal, Rule, Term};

fn v(n: &str) -> Term {
    Term::Var { name: n.to_string() }
}

fn atom(p: &str, args: Vec<Term>) -> Atom {
    Atom { pred: p.to_string(), args }
}

#[test]
fn safe_rule_passes() {
    // p(X, Y) :- e(X, Z), f(box(Z, Y)), not g(X).
    let r = Rule {
        head: atom("p", vec![v("X"), v("Y")]),
        body: vec![
            Literal::Pos(atom("e", vec![v("X"), v("Z")])),
            Literal::Pos(atom("f", vec![Term::Compound { functor: "box".to_string(), args: vec![v("Z"), v("Y")] }])),
            Literal::Neg(atom("g", vec![v("X")])),
        ],
    };
    let mut d = Vec::new();
    check_range_restriction(&r, Span { start: 0, end: 9 }, &mut d);
    assert!(d.is_empty());
}

#[test]
fn unbound_head_and_negated_variables_are_reported() {
    // p(X, W, W) :- e(X), not g(Y), not h(X).
    let r = Rule {
        head: atom("p", vec![v("X"), v("W"), v("W")]),
        body: vec![
            Literal::Pos(atom("e", vec![v("X")])),
            Literal::Neg(atom("g", vec![v("Y")])),
            Literal::Neg(atom("h", vec![v("X")])),
        ],
    };
    let span = Span { start: 3, end: 7 };
    let mut d = Vec::new();
    check_range_restriction(&r, span, &mut d);
    let msgs: Vec<&str> = d.iter().map(|x| x.message.as_str()).collect();
    assert_eq!(
        msgs,
        vec![
            "variable `W` is not bound by a positive body literal",
            "variable `W` is not bound by a positive body literal",
            "variable `Y` is not bound by a positive body literal",
        ]
    );
    assert!(d.iter().all(|x| x.code.0 == NOT_RANGE_RESTRICTED && x.span == span));
    // an aggregate's variable counts as a head variable
    let agg = Rule {
        head: atom("t", vec![Term::Agg { op: strata_k::front::ir::AggOp::Sum, var: "C".to_string() }]),
        body: vec![Literal::Pos(atom("c", vec![v("C")]))],
    };
    let mut d = Vec::new();
    check_range_restriction(&agg, span, &mut d);
    assert!(d.is_empty());
}
