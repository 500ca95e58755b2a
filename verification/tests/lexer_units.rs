use strata_k::diag::Span;
use strata_k::front::lexer::{lex, Spanned, Tok};

fn kinds(src: &str) -> Vec<Tok> {
    let mut errs: Vec<Span> = Vec::new();
    let toks = lex(src, &mut errs).into_iter().map(|s| s.tok).collect::<Vec<_>>();
    assert!(errs.is_empty(), "unexpected lex errors: {:?}", errs);
    toks
}

#[test]
fn var_const_split() {
    assert_eq!(
        kinds("X y _Z ab1"),
        vec![
            Tok::Var("X".into()),
            Tok::Const("y".into()),
            Tok::Var("_Z".into()),
            Tok::Const("ab1".into()),
        ]
    );
}

#[test]
fn keywords_beat_idents_but_prefixes_do_not() {
    assert_eq!(kinds("Bool"), vec![Tok::Bool]);
    // longer identifier with a keyword prefix stays an identifier
    assert_eq!(kinds("Boolean"), vec![Tok::Var("Boolean".into())]);
    assert_eq!(kinds("mint"), vec![Tok::Const("mint".into())]);
}

#[test]
fn punctuation_and_numbers() {
    let toks = kinds("X :- p(a, 5). -3 0.5 ::");
    assert_eq!(
        toks,
        vec![
            Tok::Var("X".into()),
            Tok::ColonDash,
            Tok::Const("p".into()),
            Tok::LParen,
            Tok::Const("a".into()),
            Tok::Comma,
            Tok::IntLit(5),
            Tok::RParen,
            Tok::Dot,
            Tok::IntLit(-3),
            Tok::Float("0.5".into()),
            Tok::DoubleColon,
        ]
    );
    match &toks[10] {
        Tok::Float(text) => assert_eq!(text.parse::<f64>().unwrap(), 0.5),
        other => panic!("expected a number, found {:?}", other),
    }
}

#[test]
fn comments_are_tokenized_as_trivia() {
    assert_eq!(
        kinds("a % comment\n  b"),
        vec![
            Tok::Const("a".into()),
            Tok::Comment("% comment".into()),
            Tok::Const("b".into()),
        ]
    );
}

#[test]
fn spans_are_byte_offsets() {
    let mut errs = Vec::new();
    let toks = lex("é(X) \"ü\"", &mut errs);
    // `é` starts no token: one error over its two bytes, then the scan goes on.
    assert_eq!(errs, vec![Span { start: 0, end: 2 }]);
    assert_eq!(
        toks,
        vec![
            Spanned { tok: Tok::LParen, span: Span { start: 2, end: 3 } },
            Spanned { tok: Tok::Var("X".into()), span: Span { start: 3, end: 4 } },
            Spanned { tok: Tok::RParen, span: Span { start: 4, end: 5 } },
            Spanned { tok: Tok::Str("ü".into()), span: Span { start: 6, end: 10 } },
        ]
    );
}

#[test]
fn longest_token_wins() {
    assert_eq!(kinds("?prob ?grad ?pr"), vec![Tok::QProb, Tok::QGrad, Tok::Question, Tok::Const("pr".into())]);
    assert_eq!(kinds("@terms @asp"), vec![Tok::AtTerms, Tok::AtAsp]);
    assert_eq!(kinds("Prov_k Prov Prov_kx"), vec![Tok::ProvK, Tok::Prov, Tok::Var("Prov_kx".into())]);
    assert_eq!(kinds(": :: :-"), vec![Tok::Colon, Tok::DoubleColon, Tok::ColonDash]);
    assert_eq!(kinds("3-4"), vec![Tok::IntLit(3), Tok::IntLit(-4)]);
    assert_eq!(kinds("1.x"), vec![Tok::IntLit(1), Tok::Dot, Tok::Const("x".into())]);
    assert_eq!(kinds("< >"), vec![Tok::Lt, Tok::Gt]);
}

#[test]
fn every_reserved_word() {
    assert_eq!(
        kinds("pred domain input from model neural not int term min max sum count prob_or"),
        vec![
            Tok::Pred, Tok::Domain, Tok::Input, Tok::From, Tok::Model, Tok::Neural, Tok::Not,
            Tok::Int, Tok::Term, Tok::Min, Tok::Max, Tok::Sum, Tok::Count, Tok::ProbOr,
        ]
    );
    assert_eq!(
        kinds("Bool Trop Prov total partial complete sound_only deterministic stochastic"),
        vec![
            Tok::Bool, Tok::Trop, Tok::Prov, Tok::Total, Tok::Partial, Tok::Complete,
            Tok::SoundOnly, Tok::Deterministic, Tok::Stochastic,
        ]
    );
}

#[test]
fn unreadable_pieces_are_reported_and_skipped() {
    let mut errs = Vec::new();
    let toks = lex("a # - \"open 99999999999999999999 -9223372036854775808", &mut errs);
    assert_eq!(
        errs,
        vec![
            Span { start: 2, end: 3 },
            Span { start: 4, end: 5 },
            Span { start: 6, end: 7 },
            Span { start: 12, end: 32 },
        ]
    );
    let kinds: Vec<Tok> = toks.into_iter().map(|s| s.tok).collect();
    assert_eq!(kinds, vec![Tok::Const("a".into()), Tok::Const("open".into()), Tok::IntLit(i64::MIN)]);
}

#[test]
fn comment_keeps_text_but_not_trailing_blanks() {
    assert_eq!(kinds("%  x  \t\r\n"), vec![Tok::Comment("%  x".into())]);
    assert_eq!(kinds("\"a % b\""), vec![Tok::Str("a % b".into())]);
}

#[test]
fn tokens_describe_themselves() {
    assert_eq!(Tok::Var("X".to_string()).describe(), "variable `X`");
    assert_eq!(Tok::Const("edge".to_string()).describe(), "identifier `edge`");
    assert_eq!(Tok::IntLit(-42).describe(), "integer `-42`");
    assert_eq!(Tok::Float("0.5".to_string()).describe(), "number `0.5`");
    assert_eq!(Tok::Str("m\"1".to_string()).describe(), "string \"m\\\"1\"");
    assert_eq!(Tok::Comment("% hi".to_string()).describe(), "comment");
    assert_eq!(Tok::ColonDash.describe(), "`:-`");
    assert_eq!(Tok::Dot.describe(), "`.`");
    assert_eq!(Tok::LParen.describe(), "`LParen`");
    assert_eq!(Tok::ProvK.describe(), "`ProvK`");
}
