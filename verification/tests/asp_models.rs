use std::collections::BTreeSet;

use strata_k::asp::simplify::{certain_facts, reduction, simplify};
use strata_k::asp::unfounded::{founded_set, greatest_unfounded_set, is_answer_set, is_model};
use strata_k::asp::aspif::to_aspif;
use strata_k::asp::clasp::parse_models;
use strata_k::asp::normalize::FreshGen;
use strata_k::asp::{stable_models_of, AspError, GRule, Ground, GroundAtom, Val, MAX_GUESS_ATOMS};
use strata_k::gpu::asp::{enc, simplify_filter, simplify_filter_cpu, AspCsr};

fn at(p: &str) -> GroundAtom {
    (p.to_string(), vec![])
}

fn rule(head: Option<usize>, pos: &[usize], neg: &[usize]) -> GRule {
    GRule { head, pos: pos.to_vec(), neg: neg.to_vec() }
}

/// a :- not b.  b :- not a.
fn even_cycle() -> Ground {
    Ground { rules: vec![rule(Some(0), &[], &[1]), rule(Some(1), &[], &[0])], atoms: vec![at("a"), at("b")] }
}

fn set(ids: &[usize]) -> BTreeSet<usize> {
    ids.iter().copied().collect()
}

#[test]
fn even_cycle_has_two_answer_sets() {
    let ms = stable_models_of(&even_cycle()).unwrap();
    assert_eq!(ms, vec![vec![at("a")], vec![at("b")]]);
}

#[test]
fn facts_and_a_positive_rule_have_one_answer_set() {
    // p.  q :- p.
    let g = Ground { rules: vec![rule(Some(0), &[], &[]), rule(Some(1), &[0], &[])], atoms: vec![at("p"), at("q")] };
    assert_eq!(stable_models_of(&g).unwrap(), vec![vec![at("p"), at("q")]]);
}

#[test]
fn a_constraint_removes_answer_sets() {
    // a :- not b.  b :- not a.  :- a.
    let mut g = even_cycle();
    g.rules.push(rule(None, &[0], &[]));
    assert_eq!(stable_models_of(&g).unwrap(), vec![vec![at("b")]]);
}

#[test]
fn odd_loop_has_no_answer_set() {
    // a :- not a.
    let g = Ground { rules: vec![rule(Some(0), &[], &[0])], atoms: vec![at("a")] };
    assert!(stable_models_of(&g).unwrap().is_empty());
}

#[test]
fn answer_sets_are_sorted_by_atom_order() {
    // choice between x(2) and x(10): symbols and integers order as values do.
    let g = Ground {
        rules: vec![rule(Some(0), &[], &[1]), rule(Some(1), &[], &[0])],
        atoms: vec![("x".to_string(), vec![Val::Int(10)]), ("x".to_string(), vec![Val::Int(2)])],
    };
    let ms = stable_models_of(&g).unwrap();
    assert_eq!(ms, vec![vec![("x".to_string(), vec![Val::Int(2)])], vec![("x".to_string(), vec![Val::Int(10)])]]);
}

#[test]
fn too_many_negated_atoms_are_refused() {
    let n = MAX_GUESS_ATOMS + 1;
    let mut rules = Vec::new();
    let mut atoms = Vec::new();
    for i in 0..n {
        atoms.push(("p".to_string(), vec![Val::Int(i as i64)]));
        rules.push(rule(Some(i), &[], &[(i + 1) % n]));
    }
    let g = Ground { rules, atoms };
    assert_eq!(stable_models_of(&g), Err(AspError::TooManyChoices(n)));
    assert!(AspError::TooManyChoices(n).message().contains("25"));
}

#[test]
fn unfounded_sets_and_stability() {
    let g = even_cycle();
    assert!(is_answer_set(&set(&[0]), &g));
    assert!(is_answer_set(&set(&[1]), &g));
    assert!(!is_answer_set(&set(&[]), &g));
    // {a, b} is a classical model but not stable: both are unfounded.
    assert!(is_model(&set(&[0, 1]), &g));
    assert!(!is_answer_set(&set(&[0, 1]), &g));
    assert_eq!(greatest_unfounded_set(&set(&[0, 1]), &g), set(&[0, 1]));
    // a self-supporting positive loop is unfounded: p :- p.
    let loop_g = Ground { rules: vec![rule(Some(0), &[0], &[])], atoms: vec![at("p")] };
    assert!(is_model(&set(&[0]), &loop_g));
    assert_eq!(founded_set(&set(&[0]), &loop_g), set(&[]));
    assert!(!is_answer_set(&set(&[0]), &loop_g));
    // the founded set stays inside the model: the fact p is not founded in {}.
    let fact_g = Ground { rules: vec![rule(Some(0), &[], &[])], atoms: vec![at("p")] };
    assert_eq!(founded_set(&set(&[]), &fact_g), set(&[]));
    assert_eq!(founded_set(&set(&[0]), &fact_g), set(&[0]));
}

#[test]
fn simplify_keeps_the_answer_sets() {
    // p.  q :- p, not r.  s :- r.   (r never derivable)
    let g = Ground {
        rules: vec![rule(Some(0), &[], &[]), rule(Some(1), &[0], &[2]), rule(Some(3), &[2], &[])],
        atoms: vec![at("p"), at("q"), at("r"), at("s")],
    };
    let s = simplify(&g);
    assert_eq!(stable_models_of(&s).unwrap(), stable_models_of(&g).unwrap());
    let (rb, ra, lb, la) = reduction(&g, &s);
    assert_eq!((rb, lb), (3, 3));
    assert!(ra <= rb && la <= lb);
    let facts = certain_facts(&g);
    assert!(facts.contains(&at("p")));
    assert!(facts.contains(&at("q")));
}

#[test]
fn aspif_lists_rules_shows_and_the_end() {
    let doc = to_aspif(&even_cycle());
    assert!(doc.starts_with("asp 1 0 0"));
    assert!(doc.trim_end().ends_with('0'));
    assert_eq!(doc.lines().filter(|l| l.starts_with("1 ")).count(), 2);
    assert_eq!(doc.lines().filter(|l| l.starts_with("4 ")).count(), 2);
}

#[test]
fn cpu_filter_drops_and_shrinks() {
    // atoms: 0=p(cert),1=q(cert),2=s(impossible),3=r
    let poss = [1u8, 1, 0, 1];
    let cert = [1u8, 1, 0, 0];
    let rules = AspCsr {
        head: vec![3, 3],
        body_start: vec![0, 2, 4],
        body_lit: vec![enc(0, true), enc(2, false), enc(1, true), enc(2, true)],
    };
    let out = simplify_filter_cpu(&rules, &poss, &cert);
    assert_eq!(out.head, vec![3]); // second rule dropped
    assert_eq!(out.body_start, vec![0, 0]); // first rule body emptied
    assert!(out.body_lit.is_empty());
    assert_eq!(out.n_rules(), 1);
    assert_eq!(simplify_filter(&rules, &poss, &cert), Ok(out));
}

#[test]
fn fresh_names_count_up_per_generator() {
    let mut g = FreshGen::new();
    assert_eq!(g.pred("nc"), "__nc0");
    assert_eq!(g.pred("nc"), "__nc1");
    assert_eq!(g.pred("c"), "__c2");
}

#[test]
fn clasp_output_is_read_back_sorted_and_deduplicated() {
    let g = Ground { rules: vec![], atoms: vec![at("b"), at("a"), at("c")] };
    let text = "clasp version 3\nReading from stdin\nSolving...\nAnswer: 1\ns0 s1\nAnswer: 2\n\nAnswer: 3\r\ns1  s0 \r\nAnswer: 4\ns2 s9 x1 s\nSATISFIABLE\n";
    let ms = parse_models(text, &g);
    assert_eq!(ms, vec![vec![], vec![at("a"), at("b")], vec![at("c")]]);
    // a marker on the last line is the empty model.
    assert_eq!(parse_models("Answer: 1", &g), vec![Vec::<GroundAtom>::new()]);
    assert!(parse_models("UNSATISFIABLE\n", &g).is_empty());
}

#[test]
fn simplified_rules_are_clean() {
    // p.  q :- p, p, not r, not s.  q :- p, not s, not r.  q :- not s.  t :- q, not u.  u :- not t.
    let g = Ground {
        rules: vec![
            rule(Some(0), &[], &[]),
            rule(Some(1), &[0, 0], &[2, 3]),
            rule(Some(1), &[0], &[3, 2]),
            rule(Some(1), &[], &[3]),
            rule(Some(4), &[1], &[5]),
            rule(Some(5), &[], &[4]),
        ],
        atoms: vec![at("p"), at("q"), at("r"), at("s"), at("t"), at("u")],
    };
    let s = simplify(&g);
    assert!(s.rules.len() <= g.rules.len());
    assert_eq!(s.atoms, g.atoms);
    for (i, r) in s.rules.iter().enumerate() {
        // strictly ascending bodies; the certain fact p never stays in a positive body;
        // the impossible r and s never stay in a negative body.
        assert!(r.pos.windows(2).all(|w| w[0] < w[1]));
        assert!(r.neg.windows(2).all(|w| w[0] < w[1]));
        assert!(!r.pos.contains(&0));
        assert!(!r.neg.contains(&2) && !r.neg.contains(&3));
        for (j, o) in s.rules.iter().enumerate() {
            if i != j {
                let subset = |a: &Vec<usize>, b: &Vec<usize>| a.iter().all(|x| b.contains(x));
                let same = o.head == r.head && subset(&o.pos, &r.pos) && subset(&r.pos, &o.pos)
                    && subset(&o.neg, &r.neg) && subset(&r.neg, &o.neg);
                assert!(!same, "rules {i} and {j} repeat each other");
                let subsumes = o.head == r.head && o.pos.len() + o.neg.len() < r.pos.len() + r.neg.len()
                    && subset(&o.pos, &r.pos) && subset(&o.neg, &r.neg);
                assert!(!subsumes, "rule {j} subsumes rule {i}");
            }
        }
    }
    assert_eq!(stable_models_of(&s).unwrap(), stable_models_of(&g).unwrap());
}
