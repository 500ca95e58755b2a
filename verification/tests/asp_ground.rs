use std::collections::BTreeSet;

use strata_k::asp::aspif::to_aspif;
use strata_k::asp::simplify::{certain_facts, reduction, simplify};
use strata_k::asp::unfounded::{greatest_unfounded_set, is_answer_set};
use strata_k::asp::{atom, ground, solve, stable_models_of, var, AspError, Atom, Ground, GroundAtom, Literal, Rule, Term, Val};

fn a(pred: &str) -> Atom {
    atom(pred, vec![])
}

fn rule(head: Atom, body: Vec<Literal>) -> Rule {
    Rule { head, body }
}

fn models(rules: &[Rule], facts: &[GroundAtom], constraints: &[Vec<Literal>]) -> Vec<Vec<GroundAtom>> {
    solve(rules, facts, constraints).unwrap()
}

#[test]
fn empty_universe_grounds_a_var_rule_to_nothing() {
    // No constants anywhere: a rule with variables has zero instantiations
    // (never an index panic), and the empty model is the one stable model.
    let rules = vec![Rule {
        head: atom("p", vec![var("X")]),
        body: vec![Literal::Neg(atom("q", vec![var("X")]))],
    }];
    let models = solve(&rules, &[], &[]).expect("solve");
    assert_eq!(models.len(), 1);
    assert!(models[0].is_empty(), "the empty model is stable");
}

#[test]
fn even_cycle_has_two_stable_models() {
    // a :- not b.  b :- not a.  ⇒ {a} and {b}.
    let rules = vec![
        rule(a("a"), vec![Literal::Neg(a("b"))]),
        rule(a("b"), vec![Literal::Neg(a("a"))]),
    ];
    let m = models(&rules, &[], &[]);
    assert_eq!(m, vec![vec![("a".into(), vec![])], vec![("b".into(), vec![])]]);
}

#[test]
fn odd_cycle_has_no_stable_model() {
    // p :- not p.  ⇒ no answer set.
    let rules = vec![rule(a("p"), vec![Literal::Neg(a("p"))])];
    assert!(models(&rules, &[], &[]).is_empty());
}

#[test]
fn constraint_filters_a_model() {
    // a :- not b.  b :- not a.  :- a.  ⇒ only {b}.
    let rules = vec![
        rule(a("a"), vec![Literal::Neg(a("b"))]),
        rule(a("b"), vec![Literal::Neg(a("a"))]),
    ];
    let constraints = vec![vec![Literal::Pos(a("a"))]];
    let m = models(&rules, &[], &constraints);
    assert_eq!(m, vec![vec![("b".into(), vec![])]]);
}

#[test]
fn first_order_choice_over_a_domain() {
    // node(a). node(b).  in(X):-node(X),not out(X).  out(X):-node(X),not in(X).
    // Each node is independently in/out ⇒ 4 stable models.
    let facts = vec![
        ("node".to_string(), vec![Val::Sym("a".into())]),
        ("node".to_string(), vec![Val::Sym("b".into())]),
    ];
    let node = |v: &str| atom("node", vec![var(v)]);
    let inn = |v: &str| atom("in", vec![var(v)]);
    let out = |v: &str| atom("out", vec![var(v)]);
    let rules = vec![
        rule(inn("X"), vec![Literal::Pos(node("X")), Literal::Neg(out("X"))]),
        rule(out("X"), vec![Literal::Pos(node("X")), Literal::Neg(inn("X"))]),
    ];
    let m = models(&rules, &facts, &[]);
    assert_eq!(m.len(), 4, "each of 2 nodes independently in/out");
    // every model keeps both node facts
    assert!(m.iter().all(|s| s.contains(&("node".into(), vec![Val::Sym("a".into())]))));
}

#[test]
fn even_cycle_aspif_shape() {
    // a :- not b.  b :- not a.
    let rules = vec![
        Rule { head: a("a"), body: vec![Literal::Neg(a("b"))] },
        Rule { head: a("b"), body: vec![Literal::Neg(a("a"))] },
    ];
    let g = ground(&rules, &[], &[]).unwrap();
    let doc = to_aspif(&g);
    assert!(doc.starts_with("asp 1 0 0\n"));
    assert!(doc.trim_end().ends_with("0")); // end statement
    // two rules + two show statements + header + end.
    assert_eq!(doc.lines().filter(|l| l.starts_with("1 ")).count(), 2);
    assert_eq!(doc.lines().filter(|l| l.starts_with("4 ")).count(), 2);
}

#[test]
fn constraint_has_empty_head() {
    // fact a.  :- a.
    let facts = vec![("a".to_string(), vec![] as Vec<Val>)];
    let constraints = vec![vec![Literal::Pos(a("a"))]];
    let g = ground(&[], &facts, &constraints).unwrap();
    let doc = to_aspif(&g);
    // the constraint line: "1 0 0 0 1 <lit>"
    assert!(doc.lines().any(|l| l.starts_with("1 0 0 0 1 ")), "missing constraint line in:\n{doc}");
}

#[test]
fn var_rule_grounds_and_emits() {
    // node(a). node(b). in(X) :- node(X), not out(X).
    let facts = vec![
        ("node".to_string(), vec![Val::Sym("a".into())]),
        ("node".to_string(), vec![Val::Sym("b".into())]),
    ];
    let rules = vec![Rule {
        head: atom("in", vec![var("X")]),
        body: vec![
            Literal::Pos(atom("node", vec![var("X")])),
            Literal::Neg(atom("out", vec![var("X")])),
        ],
    }];
    let g = ground(&rules, &facts, &[]).unwrap();
    let doc = to_aspif(&g);
    // one show statement per distinct ground atom.
    assert_eq!(doc.lines().filter(|l| l.starts_with("4 ")).count(), g.n_atoms());
}

/// Simplification must not change the answer sets (reference solve on both).
fn assert_preserves(rules: &[Rule], facts: &[(String, Vec<Val>)], cons: &[Vec<Literal>]) {
    let g = ground(rules, facts, cons).unwrap();
    let s = simplify(&g);
    // The simplified program is at most as large.
    let (rb, ra, lb, la) = reduction(&g, &s);
    assert!(ra <= rb, "rules grew: {rb}→{ra}");
    assert!(la <= lb, "literals grew: {lb}→{la}");
    // Same answer sets, computed via the reduct oracle on both encodings.
    let m0 = solve(rules, facts, cons).unwrap();
    let m1 = stable_models_of(&s).unwrap();
    assert_eq!(m0, m1, "simplification changed the answer sets");
}

#[test]
fn substitutes_facts_and_shrinks() {
    // p.  q :- p.  r :- q, not s.   p,q,r all certain; s impossible.
    let facts = vec![("p".to_string(), vec![])];
    let rules = vec![
        Rule { head: a("q"), body: vec![Literal::Pos(a("p"))] },
        Rule { head: a("r"), body: vec![Literal::Pos(a("q")), Literal::Neg(a("s"))] },
    ];
    let g = ground(&rules, &facts, &[]).unwrap();
    let s = simplify(&g);
    let (_, _, lb, la) = reduction(&g, &s);
    assert!(la < lb, "expected fewer body literals after substitution");
    assert_preserves(&rules, &facts, &[]);
    // r is a certain fact after simplification.
    let cf = certain_facts(&g);
    assert!(cf.contains(&("r".to_string(), vec![])));
}

#[test]
fn drops_dead_rules() {
    // q :- p.   (no p anywhere) ⇒ q impossible; the rule is dead.
    let rules = vec![Rule { head: a("q"), body: vec![Literal::Pos(a("p"))] }];
    let g = ground(&rules, &[], &[]).unwrap();
    let s = simplify(&g);
    assert!(s.rules.is_empty(), "dead rule should be removed");
    assert_preserves(&rules, &[], &[]);
}

#[test]
fn removes_subsumed_rule() {
    // h :- a.   h :- a, b.   (second subsumed by first) — over ground facts.
    let facts = vec![("a".to_string(), vec![] as Vec<Val>), ("b".to_string(), vec![])];
    let rules = vec![
        Rule { head: a("h"), body: vec![Literal::Pos(a("a"))] },
        Rule { head: a("h"), body: vec![Literal::Pos(a("a")), Literal::Pos(a("b"))] },
    ];
    // After fact-substitution both become `h.`; dedup leaves one.
    let g = ground(&rules, &facts, &[]).unwrap();
    let s = simplify(&g);
    let h_rules = s.rules.iter().filter(|r| r.head.is_some()).count();
    // a, b facts + single h rule (the two h-rules collapse to one `h.`)
    assert!(h_rules <= 3, "duplicate/subsumed h-rules not collapsed: {h_rules}");
    assert_preserves(&rules, &facts, &[]);
}

#[test]
fn preserves_even_cycle() {
    assert_preserves(
        &[
            Rule { head: a("a"), body: vec![Literal::Neg(a("b"))] },
            Rule { head: a("b"), body: vec![Literal::Neg(a("a"))] },
        ],
        &[],
        &[],
    );
}

/// Map a model of ground atoms to the interned id set used by the verifier.
fn ids(model: &[GroundAtom], g: &Ground) -> BTreeSet<usize> {
    model.iter().map(|m| g.atoms.iter().position(|x| x == m).unwrap()).collect()
}

/// Every reference answer set passes the unfounded verifier, and *only* the
/// reference answer sets pass it (brute force over all atom subsets).
fn cross_check(rules: &[Rule], facts: &[(String, Vec<Val>)], cons: &[Vec<Literal>]) {
    let g = ground(rules, facts, cons).unwrap();
    let reference = solve(rules, facts, cons).unwrap();
    let ref_ids: BTreeSet<BTreeSet<usize>> = reference.iter().map(|m| ids(m, &g)).collect();

    let n = g.n_atoms();
    assert!(n <= 16, "brute force only for small programs");
    let mut verifier_sets: BTreeSet<BTreeSet<usize>> = BTreeSet::new();
    for mask in 0u32..(1u32 << n) {
        let s: BTreeSet<usize> = (0..n).filter(|&i| mask & (1 << i) != 0).collect();
        if is_answer_set(&s, &g) {
            verifier_sets.insert(s);
        }
    }
    assert_eq!(ref_ids, verifier_sets, "unfounded verifier disagrees with the reduct solver");
}

#[test]
fn unfounded_rejects_self_support() {
    // p :- p.  ⇒ only answer set is {} ({p} is unfounded: p supports itself).
    let g = ground(&[Rule { head: a("p"), body: vec![Literal::Pos(a("p"))] }], &[], &[]).unwrap();
    let p = g.atoms.iter().position(|x| x == &("p".to_string(), vec![]));
    if let Some(p) = p {
        let mut s = BTreeSet::new();
        s.insert(p);
        assert!(!is_answer_set(&s, &g), "{{p}} is unfounded");
        assert_eq!(greatest_unfounded_set(&s, &g), s);
    }
    assert!(is_answer_set(&BTreeSet::new(), &g), "{{}} is the answer set");
}

#[test]
fn cross_check_even_cycle() {
    cross_check(
        &[
            Rule { head: a("a"), body: vec![Literal::Neg(a("b"))] },
            Rule { head: a("b"), body: vec![Literal::Neg(a("a"))] },
        ],
        &[],
        &[],
    );
}

#[test]
fn cross_check_positive_loop_and_facts() {
    // reach(a). reach(Y) :- edge(a,Y)... modeled simply: q :- p.  p.  ⇒ {p,q}
    cross_check(&[Rule { head: a("q"), body: vec![Literal::Pos(a("p"))] }], &[("p".to_string(), vec![])], &[]);
}

#[test]
fn cross_check_choice_with_constraint() {
    // node(a). node(b). in/out per node. :- in(a). (a must be out)
    let facts = vec![
        ("node".to_string(), vec![Val::Sym("a".into())]),
        ("node".to_string(), vec![Val::Sym("b".into())]),
    ];
    let rules = vec![
        Rule {
            head: atom("in", vec![var("X")]),
            body: vec![Literal::Pos(atom("node", vec![var("X")])), Literal::Neg(atom("out", vec![var("X")]))],
        },
        Rule {
            head: atom("out", vec![var("X")]),
            body: vec![Literal::Pos(atom("node", vec![var("X")])), Literal::Neg(atom("in", vec![var("X")]))],
        },
    ];
    let const_a = Term::Const { name: "a".into() };
    let cons = vec![vec![Literal::Pos(atom("in", vec![const_a]))]];
    cross_check(&rules, &facts, &cons);
}

#[test]
fn grounding_order_and_numbering() {
    // f(1). p(X, Y) :- f(X), f(Y), not q(Y).  with constants b, 1 ⇒ universe [b, 1].
    let facts = vec![("f".to_string(), vec![Val::Int(1)])];
    let rules = vec![Rule {
        head: atom("p", vec![var("Y"), var("X")]),
        body: vec![
            Literal::Pos(atom("f", vec![var("X")])),
            Literal::Neg(atom("q", vec![var("Y"), Term::Const { name: "b".into() }])),
        ],
    }];
    let g = ground(&rules, &facts, &[]).unwrap();
    // facts first, then X (first by name) changing fastest over [b, 1].
    let at = |p: &str, vs: Vec<Val>| -> GroundAtom { (p.to_string(), vs) };
    let b = || Val::Sym("b".into());
    assert_eq!(
        g.atoms,
        vec![
            at("f", vec![Val::Int(1)]),
            at("p", vec![b(), b()]),
            at("f", vec![b()]),
            at("q", vec![b(), b()]),
            at("p", vec![b(), Val::Int(1)]),
            at("p", vec![Val::Int(1), b()]),
            at("q", vec![Val::Int(1), b()]),
            at("p", vec![Val::Int(1), Val::Int(1)]),
        ]
    );
    assert_eq!(g.rules.len(), 5);
    assert_eq!(g.rules[1].head, Some(1));
    assert_eq!(g.rules[1].pos, vec![2]);
    assert_eq!(g.rules[1].neg, vec![3]);
    assert_eq!(g.rules[2].head, Some(4));
    assert_eq!(g.rules[2].pos, vec![0]);
    assert_eq!(g.rules[2].neg, vec![3]);
}

#[test]
fn grounding_refuses_what_it_cannot_ground() {
    let agg = vec![Rule { head: atom("p", vec![Term::Agg]), body: vec![] }];
    assert_eq!(ground(&agg, &[], &[]).err(), Some(AspError::Unsupported("aggregate atom")));
    let cmp = vec![vec![Literal::Pos(atom("p", vec![Term::Compound]))]];
    assert_eq!(ground(&[], &[], &cmp).err(), Some(AspError::Unsupported("compound term")));
    // no instance at all: nothing to refuse.
    let var_only = vec![Rule { head: atom("p", vec![var("X"), Term::Agg]), body: vec![] }];
    assert!(ground(&var_only, &[], &[]).is_ok());
    // 32 constants and 5 variables: 2^25 instances.
    let facts: Vec<GroundAtom> = (0..32).map(|i| ("c".to_string(), vec![Val::Int(i)])).collect();
    let big = vec![Rule {
        head: atom("p", vec![var("A"), var("B"), var("C"), var("D"), var("E")]),
        body: vec![],
    }];
    assert_eq!(ground(&big, &facts, &[]).err(), Some(AspError::TooLargeGrounding));
}
