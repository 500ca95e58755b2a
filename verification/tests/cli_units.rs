use strata_k::asp::Val;
use strata_k::cli::{has_flag, opt_value, positional, render_asp_atom, render_asp_val, wants_json, Code};

fn args(a: &[&str]) -> Vec<String> {
    a.iter().map(|s| s.to_string()).collect()
}

#[test]
fn exit_codes() {
    assert_eq!(Code::Success.status(), 0);
    assert_eq!(Code::Diagnostics.status(), 1);
    assert_eq!(Code::Usage.status(), 2);
    assert_eq!(Code::Runtime.status(), 4);
}

#[test]
fn positional_skips_options() {
    assert_eq!(positional(&args(&["--check", "a.strata", "b"])), Some("a.strata"));
    assert_eq!(positional(&args(&["--check", "-x"])), None);
    assert_eq!(positional(&args(&[])), None);
}

#[test]
fn flags_and_values() {
    let a = args(&["run", "--semi-naive", "--error-format=json", "--to", "x"]);
    assert!(has_flag(&a, "--semi-naive"));
    assert!(!has_flag(&a, "--semi"));
    assert_eq!(opt_value(&a, "--error-format="), Some("json"));
    assert_eq!(opt_value(&a, "--missing="), None);
    assert!(wants_json(&a));
    assert!(!wants_json(&args(&["--error-format=text"])));
    // the first matching key decides.
    assert!(!wants_json(&args(&["--error-format=text", "--error-format=json"])));
    assert!(!wants_json(&args(&["check"])));
}

#[test]
fn answer_atoms_render_like_the_surface_syntax() {
    assert_eq!(render_asp_val(&Val::Sym("a".into())), "a");
    assert_eq!(render_asp_val(&Val::Int(-12)), "-12");
    assert_eq!(render_asp_atom(&("p".to_string(), vec![])), "p");
    assert_eq!(render_asp_atom(&("q".to_string(), vec![Val::Int(3)])), "q(3)");
    assert_eq!(
        render_asp_atom(&("edge".to_string(), vec![Val::Sym("a".into()), Val::Int(10), Val::Sym("b".into())])),
        "edge(a, 10, b)"
    );
}
