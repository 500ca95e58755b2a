use std::collections::{BTreeMap, BTreeSet, HashMap};

use strata_k::gpu::asp::{dec, enc};
use strata_k::gpu::contraction::{contract_count, contraction_order};
use strata_k::gpu::partition::{binary_join, hash_partition, hypercube_triangles, partitioned_binary_join, slot, triangles};
use strata_k::gpu::plan::{cost_based_order, hypertree_decompose, order_cost, plan, Atom, Query, Stats};
use strata_k::gpu::{binary_plan_intermediate, count_triangles, transitive_closure_bool, GpuError};

fn e(a: u32, b: u32) -> Atom {
    Atom::new("edge", &[a, b])
}

fn ms(v: &[(i64, i64, i64)]) -> BTreeMap<(i64, i64, i64), usize> {
    let mut m = BTreeMap::new();
    for &t in v {
        *m.entry(t).or_insert(0) += 1;
    }
    m
}

#[test]
fn enc_dec_roundtrip() {
    for atom in [0usize, 1, 5, 4095] {
        assert_eq!(dec(enc(atom, true)), (atom, true));
        assert_eq!(dec(enc(atom, false)), (atom, false));
    }
}

#[test]
fn path_width_is_one() {
    // a-b, b-c, c-d (a path/chain): treewidth 1, width 2.
    let q = Query::new(vec![
        Atom::new("E", &[0, 1]),
        Atom::new("E", &[1, 2]),
        Atom::new("E", &[2, 3]),
    ]);
    assert_eq!(contraction_order(&q).width, 2);
}

#[test]
fn triangle_width_is_two() {
    let c = contraction_order(&q_triangle());
    assert_eq!(c.width, 3, "triangle bag = 3 vars (treewidth 2)");
    assert_eq!(c.order.len(), 3);
}

fn q_triangle() -> Query {
    // R(a,b), S(b,c), T(a,c)
    Query::new(vec![Atom::new("R", &[0, 1]), Atom::new("S", &[1, 2]), Atom::new("T", &[0, 2])])
}

/// Nested-loop join size over the values that occur in the relations.
fn brute(q: &Query, relations: &[Vec<Vec<i64>>]) -> u64 {
    let vars = q.vars();
    let dom: Vec<i64> = {
        let s: BTreeSet<i64> = relations.iter().flatten().flatten().copied().collect();
        s.into_iter().collect()
    };
    let mut count = 0u64;
    let mut assign: HashMap<u32, i64> = HashMap::new();
    fn rec(
        vars: &[u32],
        i: usize,
        dom: &[i64],
        assign: &mut HashMap<u32, i64>,
        q: &Query,
        rels: &[Vec<Vec<i64>>],
        count: &mut u64,
    ) {
        if i == vars.len() {
            let ok = q.atoms.iter().zip(rels).all(|(a, tuples)| {
                let t: Vec<i64> = a.vars.iter().map(|v| assign[v]).collect();
                tuples.contains(&t)
            });
            if ok {
                *count += 1;
            }
            return;
        }
        for &d in dom {
            assign.insert(vars[i], d);
            rec(vars, i + 1, dom, assign, q, rels, count);
        }
    }
    rec(&vars, 0, &dom, &mut assign, q, relations, &mut count);
    count
}

#[test]
fn contraction_counts_triangles() {
    // directed triangle over a small graph; edges reused for R,S,T.
    let edges = vec![vec![0, 1], vec![1, 2], vec![0, 2], vec![2, 0], vec![1, 0]];
    let q = q_triangle();
    let rels = vec![edges.clone(), edges.clone(), edges.clone()];
    assert_eq!(contract_count(&q, &rels), brute(&q, &rels));
}

#[test]
fn contraction_matches_brute_random() {
    // pseudo-random small relations; contraction == brute force on 4-cycle.
    let q = Query::new(vec![
        Atom::new("A", &[0, 1]),
        Atom::new("B", &[1, 2]),
        Atom::new("C", &[2, 3]),
        Atom::new("D", &[3, 0]),
    ]);
    let mut seed = 0x1234_5678u64;
    let mut nxt = || {
        seed = seed.wrapping_mul(6364136223846793005).wrapping_add(1);
        (seed >> 33) as i64 % 4
    };
    for _ in 0..40 {
        let rel = |n: usize, f: &mut dyn FnMut() -> i64| -> Vec<Vec<i64>> {
            let mut s: BTreeSet<Vec<i64>> = BTreeSet::new();
            for _ in 0..n {
                s.insert(vec![f(), f()]);
            }
            s.into_iter().collect()
        };
        let rels = vec![
            rel(6, &mut nxt),
            rel(6, &mut nxt),
            rel(6, &mut nxt),
            rel(6, &mut nxt),
        ];
        assert_eq!(
            contract_count(&q, &rels),
            brute(&q, &rels),
            "tensor contraction != brute join"
        );
    }
}

#[test]
fn contraction_counts_duplicate_tuples_and_repeated_variables() {
    // R(a,a) with a duplicated tuple: the count is a multiplicity sum.
    let q = Query::new(vec![Atom::new("R", &[0, 0]), Atom::new("S", &[0, 1])]);
    let rels = vec![
        vec![vec![1, 1], vec![1, 1], vec![2, 3]],
        vec![vec![1, 5], vec![1, 6], vec![2, 7]],
    ];
    // a = 1: R(1,1) twice, S(1,b) for b in {5, 6}: 2 * 2 = 4; a = 2: R(2,2) absent.
    assert_eq!(contract_count(&q, &rels), 4);
}

#[test]
fn contraction_of_an_empty_relation_is_zero() {
    let q = q_triangle();
    let edges = vec![vec![0, 1], vec![1, 2], vec![0, 2]];
    let rels = vec![edges.clone(), Vec::new(), edges];
    assert_eq!(contract_count(&q, &rels), 0);
}

#[test]
fn partitioned_join_equals_whole() {
    let r: Vec<Vec<i64>> = (0..20).map(|i| vec![i, i % 5]).collect();
    let s: Vec<Vec<i64>> = (0..20).map(|i| vec![i % 5, i * 3]).collect();
    for k in [1usize, 2, 4, 7] {
        let whole = ms(&binary_join(&r, &s, 1, 0));
        let parted = ms(&partitioned_binary_join(&r, &s, 1, 0, k));
        assert_eq!(whole, parted, "radix k={k} changed the join");
    }
}

#[test]
fn hypercube_triangles_equal_whole() {
    // a small directed graph with several triangles.
    let edges: Vec<Vec<i64>> = vec![
        vec![0, 1],
        vec![1, 2],
        vec![0, 2],
        vec![2, 3],
        vec![1, 3],
        vec![0, 3],
        vec![3, 0],
        vec![2, 0],
    ];
    let whole = triangles(&edges);
    for p in [1usize, 2, 3] {
        assert_eq!(hypercube_triangles(&edges, p), whole, "HCube p={p} miscounts triangles");
    }
}

#[test]
fn hypercube_random_matches() {
    let mut seed = 0xC0FFEEu64;
    let mut nxt = |m: i64| {
        seed = seed.wrapping_mul(6364136223846793005).wrapping_add(1);
        (seed >> 33) as i64 % m
    };
    for _ in 0..30 {
        let mut es: std::collections::BTreeSet<(i64, i64)> = Default::default();
        for _ in 0..14 {
            es.insert((nxt(6), nxt(6)));
        }
        let edges: Vec<Vec<i64>> = es.iter().map(|&(a, b)| vec![a, b]).collect();
        let whole = triangles(&edges);
        assert_eq!(hypercube_triangles(&edges, 3), whole);
    }
}

#[test]
fn hash_partition_is_lossless() {
    let tuples: Vec<Vec<i64>> = (0..50).map(|i| vec![i, i * 7 % 13]).collect();
    let parts = hash_partition(&tuples, &[0], 8);
    let total: usize = parts.iter().map(|p| p.len()).sum();
    assert_eq!(total, tuples.len());
    let mut seen: std::collections::HashMap<i64, usize> = Default::default();
    for (pi, part) in parts.iter().enumerate() {
        for t in part {
            if let Some(&prev) = seen.get(&t[0]) {
                assert_eq!(prev, pi, "key {} split across shards", t[0]);
            }
            seen.insert(t[0], pi);
        }
    }
}

#[test]
fn slot_stays_in_range() {
    for x in [-5i64, 0, 7, 1 << 40, i64::MIN, i64::MAX] {
        assert_eq!(slot(x, 1), 0);
        for p in [2usize, 3, 8] {
            assert!(slot(x, p) < p);
            assert_eq!(slot(x, p), slot(x, p));
        }
    }
}

#[test]
fn one_directed_triangle() {
    let edges: Vec<Vec<i64>> = vec![vec![0, 1], vec![1, 2], vec![0, 2]];
    assert_eq!(triangles(&edges), 1);
    assert_eq!(hypercube_triangles(&edges, 2), 1);
}

#[test]
fn repeated_edge_rows_count_once() {
    let edges: Vec<Vec<i64>> = vec![vec![0, 1], vec![0, 1], vec![1, 2], vec![0, 2]];
    assert_eq!(triangles(&edges), 1);
    for p in [1usize, 2, 3] {
        assert_eq!(hypercube_triangles(&edges, p), 1);
    }
    let doubled: Vec<Vec<i64>> = vec![vec![0, 1], vec![1, 2], vec![0, 2], vec![1, 2], vec![0, 2], vec![0, 1]];
    assert_eq!(triangles(&doubled), 1);
}

#[test]
fn star_is_acyclic() {
    let q = Query::new(vec![e(0, 1), e(0, 2), e(0, 3)]);
    assert!(hypertree_decompose(&q).acyclic);
}

#[test]
fn triangle_is_cyclic_core() {
    // edge(a,b), edge(b,c), edge(a,c) — the 3-cycle: GYO peels nothing.
    let q = Query::new(vec![e(0, 1), e(1, 2), e(0, 2)]);
    let d = hypertree_decompose(&q);
    assert!(!d.acyclic);
    assert_eq!(d.width, 3);
    assert_eq!(d.cyclic_core.len(), 3);
}

#[test]
fn path_is_acyclic() {
    let q = Query::new(vec![e(0, 1), e(1, 2), e(2, 3)]);
    let d = hypertree_decompose(&q);
    assert!(d.acyclic);
    assert_eq!(d.width, 1);
    assert!(d.cyclic_core.is_empty());
    assert_eq!(d.join_tree.len(), 3);
}

#[test]
fn four_cycle_is_cyclic() {
    let q = Query::new(vec![e(0, 1), e(1, 2), e(2, 3), e(3, 0)]);
    let d = hypertree_decompose(&q);
    assert!(!d.acyclic);
    assert_eq!(d.width, 4);
}

#[test]
fn cbo_leads_with_the_small_relation() {
    // R(a,b) small, S(b,c) large, shared b.
    let q = Query::new(vec![Atom::new("R", &[0, 1]), Atom::new("S", &[1, 2])]);
    let mut stats = Stats::default();
    stats.card.insert("R".into(), 10);
    stats.card.insert("S".into(), 1000);
    stats.domain.insert(0, 10); // domain of a
    stats.domain.insert(1, 100); // shared var b
    stats.domain.insert(2, 1000); // domain of c

    let good = order_cost(&vec![0, 1, 2], &q, &stats); // a,b,c → opens small R first
    let bad = order_cost(&vec![2, 1, 0], &q, &stats); // c,b,a → opens large S first
    assert!(good < bad, "good={good} bad={bad}");

    let (order, cost) = cost_based_order(&q, &stats);
    assert_eq!(cost, good);
    // the chosen order opens R (vars 0,1) before variable 2
    let p0 = order.iter().position(|&v| v == 0).unwrap();
    let p2 = order.iter().position(|&v| v == 2).unwrap();
    assert!(p0 < p2, "order {order:?} should bind R's vars before S's tail");
}

#[test]
fn per_superstep_reoptimization() {
    let q = Query::new(vec![Atom::new("R", &[0, 1]), Atom::new("S", &[1, 2])]);
    let mut s1 = Stats::default();
    s1.card.insert("R".into(), 10);
    s1.card.insert("S".into(), 1000);
    for (v, d) in [(0, 10), (1, 100), (2, 1000)] {
        s1.domain.insert(v, d);
    }
    // Superstep 2: R has grown large, S is now the small one.
    let mut s2 = Stats::default();
    s2.card.insert("R".into(), 1000);
    s2.card.insert("S".into(), 10);
    for (v, d) in [(0, 1000), (1, 100), (2, 10)] {
        s2.domain.insert(v, d);
    }
    let (o1, _) = cost_based_order(&q, &s1);
    let (o2, _) = cost_based_order(&q, &s2);
    // Round 1 leads with R's exclusive var (0); round 2 leads with S's (2).
    assert_eq!(o1.first(), Some(&0), "round 1 order {o1:?}");
    assert_eq!(o2.first(), Some(&2), "round 2 order {o2:?}");
    assert_ne!(o1, o2, "re-optimization should adapt the plan");
}

#[test]
fn plan_triangle() {
    let q = Query::new(vec![e(0, 1), e(1, 2), e(0, 2)]);
    let mut stats = Stats::default();
    stats.card.insert("edge".into(), 1000);
    stats.domain.insert(0, 100);
    stats.domain.insert(1, 100);
    stats.domain.insert(2, 100);
    let p = plan(&q, &stats);
    assert!(!p.decomposition.acyclic);
    assert_eq!(p.order.len(), 3);
    assert_eq!(p.contraction_width, 3);
    assert_eq!(p.contraction_width, p.decomposition.width);
}

#[test]
fn plan_reports_contraction_width_for_acyclic() {
    let q = Query::new(vec![e(0, 1), e(1, 2), e(2, 3)]);
    let p = plan(&q, &Stats::default());
    assert!(p.decomposition.acyclic);
    assert_eq!(p.contraction_width, 2);
}

#[test]
fn without_a_device_the_engine_reports_not_built() {
    assert_eq!(transitive_closure_bool(&[(0, 1)]), Err(GpuError::NotBuilt));
    assert_eq!(count_triangles(&[(0, 1), (1, 2), (0, 2)]), Err(GpuError::NotBuilt));
}

#[test]
fn binary_plan_intermediate_counts_two_paths() {
    assert_eq!(binary_plan_intermediate(&[]), 0);
    assert_eq!(binary_plan_intermediate(&[(0, 1)]), 1);
    // oriented: {(0,1), (0,2), (1,2)}; forward degrees 2, 1, 0.
    assert_eq!(binary_plan_intermediate(&[(1, 0), (0, 1), (2, 1), (0, 2), (2, 2)]), 5);
    // a star from 0 with 3 leaves: 3^2.
    assert_eq!(binary_plan_intermediate(&[(0, 1), (2, 0), (0, 3), (3, 0)]), 9);
}

#[test]
fn cbo_breaks_ties_lexicographically() {
    let q = Query::new(vec![e(0, 1), e(1, 2), e(0, 2)]);
    let mut stats = Stats::default();
    stats.card.insert("edge".into(), 1000);
    for v in 0..3u32 {
        stats.domain.insert(v, 100);
    }
    let perms: Vec<Vec<u32>> = vec![
        vec![0, 1, 2],
        vec![0, 2, 1],
        vec![1, 0, 2],
        vec![1, 2, 0],
        vec![2, 0, 1],
        vec![2, 1, 0],
    ];
    let costs: Vec<u128> = perms.iter().map(|o| order_cost(o, &q, &stats)).collect();
    let min = *costs.iter().min().unwrap();
    let first_min = perms.iter().zip(costs.iter()).find(|(_, &c)| c == min).unwrap().0.clone();
    let (order, cost) = cost_based_order(&q, &stats);
    assert_eq!(cost, min);
    assert_eq!(order, first_min);
    // with every variable alike all orders tie, and the smallest one wins.
    assert!(costs.iter().all(|&c| c == min));
    assert_eq!(order, vec![0, 1, 2]);
    assert_eq!(plan(&q, &stats).order, vec![0, 1, 2]);
}

#[test]
fn empty_key_sends_everything_to_the_first_shard() {
    let tuples: Vec<Vec<i64>> = vec![vec![3, 1], vec![7, 2], vec![3, 1]];
    let parts = hash_partition(&tuples, &[], 4);
    assert_eq!(parts.len(), 4);
    assert_eq!(parts[0], tuples);
    assert!(parts[1..].iter().all(|p| p.is_empty()));
}
