use strata_k::asp::normalize::{normalize, ChoiceRule, FreshGen};
use strata_k::asp::{atom, solve, Atom, Literal, Term, Val};

fn gatom(pred: &str) -> Atom {
    atom(pred, vec![])
}

/// Solve a normalized choice rule (no extra program) and count models.
fn count_models(cr: &ChoiceRule) -> usize {
    let mut fresh = FreshGen::new();
    let (rules, cons) = normalize(cr, &mut fresh);
    solve(&rules, &[], &cons).unwrap().len()
}

#[test]
fn unbounded_choice_is_powerset() {
    // {a; b; c}. ⇒ 2^3 = 8 answer sets (over the choice atoms).
    let cr = ChoiceRule { choices: vec![gatom("a"), gatom("b"), gatom("c")], lower: None, upper: None, body: vec![] };
    assert_eq!(count_models(&cr), 8);
}

#[test]
fn exactly_one() {
    // 1 {a; b; c} 1. ⇒ 3 answer sets.
    let cr = ChoiceRule { choices: vec![gatom("a"), gatom("b"), gatom("c")], lower: Some(1), upper: Some(1), body: vec![] };
    assert_eq!(count_models(&cr), 3);
}

#[test]
fn at_least_two_of_three() {
    // 2 {a;b;c}. ⇒ subsets of size ≥2 = {ab,ac,bc,abc} = 4.
    let cr = ChoiceRule { choices: vec![gatom("a"), gatom("b"), gatom("c")], lower: Some(2), upper: None, body: vec![] };
    assert_eq!(count_models(&cr), 4);
}

#[test]
fn at_most_one_of_three() {
    // {a;b;c} 1. ⇒ subsets of size ≤1 = {∅,a,b,c} = 4.
    let cr = ChoiceRule { choices: vec![gatom("a"), gatom("b"), gatom("c")], lower: None, upper: Some(1), body: vec![] };
    assert_eq!(count_models(&cr), 4);
}

#[test]
fn exactly_two_of_four() {
    // 2 {a;b;c;d} 2. ⇒ C(4,2) = 6.
    let cr = ChoiceRule {
        choices: vec![gatom("a"), gatom("b"), gatom("c"), gatom("d")],
        lower: Some(2),
        upper: Some(2),
        body: vec![],
    };
    assert_eq!(count_models(&cr), 6);
}

#[test]
fn choice_carries_args() {
    // {p(x)}. over a ground arg ⇒ 2 models: {} and {p(x)}.
    let cr = ChoiceRule {
        choices: vec![atom("p", vec![Term::Const { name: "x".into() }])],
        lower: None,
        upper: None,
        body: vec![],
    };
    let mut fresh = FreshGen::new();
    let (rules, cons) = normalize(&cr, &mut fresh);
    let models = solve(&rules, &[], &cons).unwrap();
    assert_eq!(models.len(), 2);
    let px: (String, Vec<Val>) = ("p".into(), vec![Val::Sym("x".into())]);
    assert!(models.iter().any(|m| m.contains(&px)));
    assert!(models.iter().any(|m| !m.contains(&px)));
}

#[test]
fn normalization_shape() {
    // 1 {a; b} 1 :- q.  ⇒ two choice pairs, a counter up to 2, both bounds.
    let cr = ChoiceRule {
        choices: vec![gatom("a"), gatom("b")],
        lower: Some(1),
        upper: Some(1),
        body: vec![Literal::Pos(gatom("q"))],
    };
    let mut fresh = FreshGen::new();
    let (rules, cons) = normalize(&cr, &mut fresh);
    let heads: Vec<String> = rules.iter().map(|r| r.head.pred.clone()).collect();
    assert_eq!(
        heads,
        vec!["a", "__nc0", "b", "__nc1", "__c2_1_1", "__c2_2_1", "__c2_2_1", "__c2_2_2", "__c2_2_2"]
    );
    assert_eq!(rules[0].body, vec![Literal::Pos(gatom("q")), Literal::Neg(gatom("__nc0"))]);
    assert_eq!(rules[7].body, vec![Literal::Pos(gatom("__c2_1_2"))]);
    assert_eq!(rules[8].body, vec![Literal::Pos(gatom("__c2_1_1")), Literal::Pos(gatom("b"))]);
    assert_eq!(
        cons,
        vec![
            vec![Literal::Pos(gatom("q")), Literal::Neg(gatom("__c2_2_1"))],
            vec![Literal::Pos(gatom("q")), Literal::Pos(gatom("__c2_2_2"))],
        ]
    );
    // the next fresh name continues after the counter's.
    assert_eq!(fresh.pred("x"), "__x3");
}
