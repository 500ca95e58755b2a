use strata_k::asp::aspif::{parse_show_name, show_name};
use strata_k::asp::heuristic::{train, AtomFeatures, Oracle};

#[test]
fn show_name_roundtrip() {
    for id in [0usize, 1, 42, 1000] {
        assert_eq!(parse_show_name(&show_name(id)), Some(id));
    }
    assert_eq!(parse_show_name("x3"), None);
}

#[test]
fn baseline_emits_no_levels() {
    let o = Oracle::baseline();
    assert_eq!(o.level(&AtomFeatures { degree: 9 }), 0);
}

#[test]
fn higher_degree_gets_higher_level() {
    let o = Oracle { weight: 4 };
    assert!(o.level(&AtomFeatures { degree: 5 }) > o.level(&AtomFeatures { degree: 2 }));
}

#[test]
fn train_picks_min_cost() {
    // cost minimized at weight 3.
    let o = train(&[0, 1, 3, 5], |w| ((w - 3) * (w - 3)) as u64);
    assert_eq!(o.weight, 3);
}

#[test]
fn show_name_is_s_then_decimal() {
    assert_eq!(show_name(0), "s0");
    assert_eq!(show_name(1000), "s1000");
    assert_eq!(parse_show_name("s"), None);
    assert_eq!(parse_show_name("s12"), Some(12));
    assert_eq!(parse_show_name("y7"), None);
}

#[test]
fn level_is_weight_times_degree() {
    assert_eq!(Oracle { weight: 4 }.level(&AtomFeatures { degree: 5 }), 20);
    assert_eq!(Oracle { weight: -2 }.level(&AtomFeatures { degree: 3 }), -6);
}

#[test]
fn train_breaks_ties_toward_the_first_candidate() {
    let o = train(&[7, 2, 9], |_w| 5u64);
    assert_eq!(o.weight, 7);
}
