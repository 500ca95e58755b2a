//! Lexer: surface text → tokens with byte spans. Upper-case or `_`-leading
//! words are variables, lower-case words constants; reserved words and
//! punctuation are tokens of their own. Blanks (space, tab, CR, LF) separate
//! tokens; `%` comments are kept as tokens so a parser can attach them. At each
//! position the longest token wins, a reserved word beating a word of the same
//! length. Lexing never stops: a character that starts no token is reported and
//! skipped, and an integer literal out of `i64` range is reported whole.
use vstd::prelude::*;
use crate::diag::Span;
use crate::text::{is_digit, digits_value, all_digits, is_ws, dec_int, push_int};
use crate::front::printer::{debug_str, debug_string};

verus! {

/// A token.
#[derive(Debug, Clone, PartialEq)]
pub enum Tok {
    Pred,
    Domain,
    Input,
    From,
    Model,
    Neural,
    Not,
    Int,
    Term,
    Min,
    Max,
    Sum,
    Count,
    ProbOr,
    Bool,
    Trop,
    Prov,
    ProvK,
    Total,
    Partial,
    Complete,
    SoundOnly,
    Deterministic,
    Stochastic,
    QProb,
    QGrad,
    Question,
    AtTerms,
    AtAsp,
    ColonDash,
    DoubleColon,
    Colon,
    Dot,
    Comma,
    LParen,
    RParen,
    Lt,
    Gt,
    /// A variable: upper-case or `_` first.
    Var(String),
    /// A constant: lower-case first.
    Const(String),
    /// A decimal number with a fractional part, as written.
    Float(String),
    /// An integer literal.
    IntLit(i64),
    /// A string literal, without its quotes.
    Str(String),
    /// A `%` comment to the end of the line, trailing whitespace removed.
    Comment(String),
}

/// A token with its byte span.
#[derive(Debug, Clone, PartialEq)]
pub struct Spanned {
    pub tok: Tok,
    pub span: Span,
}

/// Space, tab, carriage return, line feed.
pub open spec fn is_blank(c: char) -> bool {
    c == ' ' || c == '\t' || c == '\r' || c == '\n'
}

pub open spec fn is_upper(c: char) -> bool {
    'A' <= c && c <= 'Z'
}

pub open spec fn is_lower(c: char) -> bool {
    'a' <= c && c <= 'z'
}

/// A letter, digit or underscore.
pub open spec fn is_word_char(c: char) -> bool {
    is_upper(c) || is_lower(c) || is_digit(c) || c == '_'
}

/// Every character after the first is a word character.
pub open spec fn word_tail(w: Seq<char>) -> bool {
    forall|k: int| 0 < k < w.len() ==> is_word_char(#[trigger] w[k])
}

/// `[A-Z_][A-Za-z0-9_]*`
pub open spec fn var_shape(w: Seq<char>) -> bool {
    w.len() > 0 && (is_upper(w[0]) || w[0] == '_') && word_tail(w)
}

/// `[a-z][A-Za-z0-9_]*`
pub open spec fn const_shape(w: Seq<char>) -> bool {
    w.len() > 0 && is_lower(w[0]) && word_tail(w)
}

/// One or more decimal digits.
pub open spec fn digit_run(w: Seq<char>) -> bool {
    w.len() > 0 && all_digits(w)
}

/// `-?[0-9]+`
pub open spec fn int_shape(w: Seq<char>) -> bool {
    digit_run(w) || (w.len() > 0 && w[0] == '-' && digit_run(w.drop_first()))
}

/// `-?[0-9]+\.[0-9]+`, the point at `k`.
pub open spec fn float_at(w: Seq<char>, k: int) -> bool {
    0 < k < w.len() && w[k] == '.' && int_shape(w.take(k)) && digit_run(w.skip(k + 1))
}

/// `-?[0-9]+\.[0-9]+`
pub open spec fn float_shape(w: Seq<char>) -> bool {
    exists|k: int| #[trigger] float_at(w, k)
}

/// `"[^"]*"`
pub open spec fn str_shape(w: Seq<char>) -> bool {
    &&& w.len() >= 2
    &&& w[0] == '"'
    &&& w.last() == '"'
    &&& forall|k: int| 0 < k < w.len() - 1 ==> #[trigger] w[k] != '"'
}

/// `%[^\n]*`
pub open spec fn comment_shape(w: Seq<char>) -> bool {
    w.len() > 0 && w[0] == '%' && forall|k: int| 0 < k < w.len() ==> #[trigger] w[k] != '\n'
}

/// The reserved word spelled by `w`, if any.
pub open spec fn keyword(w: Seq<char>) -> Option<Tok> {
    if w == "pred"@ { Some(Tok::Pred) }
    else if w == "domain"@ { Some(Tok::Domain) }
    else if w == "input"@ { Some(Tok::Input) }
    else if w == "from"@ { Some(Tok::From) }
    else if w == "model"@ { Some(Tok::Model) }
    else if w == "neural"@ { Some(Tok::Neural) }
    else if w == "not"@ { Some(Tok::Not) }
    else if w == "int"@ { Some(Tok::Int) }
    else if w == "term"@ { Some(Tok::Term) }
    else if w == "min"@ { Some(Tok::Min) }
    else if w == "max"@ { Some(Tok::Max) }
    else if w == "sum"@ { Some(Tok::Sum) }
    else if w == "count"@ { Some(Tok::Count) }
    else if w == "prob_or"@ { Some(Tok::ProbOr) }
    else if w == "Bool"@ { Some(Tok::Bool) }
    else if w == "Trop"@ { Some(Tok::Trop) }
    else if w == "Prov"@ { Some(Tok::Prov) }
    else if w == "Prov_k"@ { Some(Tok::ProvK) }
    else if w == "total"@ { Some(Tok::Total) }
    else if w == "partial"@ { Some(Tok::Partial) }
    else if w == "complete"@ { Some(Tok::Complete) }
    else if w == "sound_only"@ { Some(Tok::SoundOnly) }
    else if w == "deterministic"@ { Some(Tok::Deterministic) }
    else if w == "stochastic"@ { Some(Tok::Stochastic) }
    else { None }
}

/// The punctuation token spelled by `w`, if any.
pub open spec fn symbol(w: Seq<char>) -> Option<Tok> {
    if w == "?prob"@ { Some(Tok::QProb) }
    else if w == "?grad"@ { Some(Tok::QGrad) }
    else if w == "?"@ { Some(Tok::Question) }
    else if w == "@terms"@ { Some(Tok::AtTerms) }
    else if w == "@asp"@ { Some(Tok::AtAsp) }
    else if w == ":-"@ { Some(Tok::ColonDash) }
    else if w == "::"@ { Some(Tok::DoubleColon) }
    else if w == ":"@ { Some(Tok::Colon) }
    else if w == "."@ { Some(Tok::Dot) }
    else if w == ","@ { Some(Tok::Comma) }
    else if w == "("@ { Some(Tok::LParen) }
    else if w == ")"@ { Some(Tok::RParen) }
    else if w == "<"@ { Some(Tok::Lt) }
    else if w == ">"@ { Some(Tok::Gt) }
    else { None }
}

/// `w` is spelled by some token.
pub open spec fn any_shape(w: Seq<char>) -> bool {
    ||| keyword(w) is Some
    ||| symbol(w) is Some
    ||| var_shape(w)
    ||| const_shape(w)
    ||| int_shape(w)
    ||| float_shape(w)
    ||| str_shape(w)
    ||| comment_shape(w)
}

/// The largest `k <= j` with `s[i..k]` spelled by a token, or `i` if none.
pub open spec fn last_shape(s: Seq<char>, i: int, j: int) -> int
    decreases j - i,
{
    if j <= i {
        i
    } else if any_shape(s.subrange(i, j)) {
        j
    } else {
        last_shape(s, i, j - 1)
    }
}

/// The value of an integer literal.
pub open spec fn int_value(w: Seq<char>) -> int {
    if w.len() > 0 && w[0] == '-' { -(digits_value(w.drop_first()) as int) } else { digits_value(w) as int }
}

/// `w` without its trailing whitespace.
pub open spec fn trim_end(w: Seq<char>) -> Seq<char>
    decreases w.len(),
{
    if w.len() > 0 && is_ws(w.last()) { trim_end(w.drop_last()) } else { w }
}

/// `t` is the token that the text `w` spells.
pub open spec fn tok_is(t: Tok, w: Seq<char>) -> bool {
    if keyword(w) is Some {
        keyword(w) == Some(t)
    } else if symbol(w) is Some {
        symbol(w) == Some(t)
    } else {
        match t {
            Tok::Var(x) => var_shape(w) && x@ == w,
            Tok::Const(x) => const_shape(w) && x@ == w,
            Tok::Float(x) => float_shape(w) && x@ == w,
            Tok::IntLit(v) => int_shape(w) && v == int_value(w),
            Tok::Str(x) => str_shape(w) && x@ == w.subrange(1, w.len() - 1),
            Tok::Comment(x) => comment_shape(w) && x@ == trim_end(w),
            _ => false,
        }
    }
}

/// An integer literal whose value is not an `i64`.
pub open spec fn int_overflow(w: Seq<char>) -> bool {
    int_shape(w) && !(i64::MIN <= int_value(w) <= i64::MAX)
}

/// `last_shape` lies between `i` and `j`.
pub proof fn lemma_last_shape_bounds(s: Seq<char>, i: int, j: int)
    ensures
        j <= i ==> last_shape(s, i, j) == i,
        j > i ==> i <= last_shape(s, i, j) <= j,
        last_shape(s, i, j) > i ==> any_shape(s.subrange(i, last_shape(s, i, j))),
    decreases j - i,
{
    if j > i {
        lemma_last_shape_bounds(s, i, j - 1);
    }
}

/// The tokens (as character ranges) and the unreadable pieces (the same) of
/// `s` from position `i` on.
pub open spec fn scan(s: Seq<char>, i: int) -> (Seq<(int, int)>, Seq<(int, int)>)
    decreases s.len() - i,
{
    if i < 0 || i >= s.len() {
        (Seq::empty(), Seq::empty())
    } else if is_blank(s[i]) {
        scan(s, i + 1)
    } else {
        let j = last_shape(s, i, s.len() as int);
        proof {
            lemma_last_shape_bounds(s, i, s.len() as int);
        }
        if j <= i {
            let r = scan(s, i + 1);
            (r.0, seq![(i, i + 1)] + r.1)
        } else if int_overflow(s.subrange(i, j)) {
            let r = scan(s, j);
            (r.0, seq![(i, j)] + r.1)
        } else {
            let r = scan(s, j);
            (seq![(i, j)] + r.0, r.1)
        }
    }
}

/// The number of bytes of `c` in UTF-8.
pub open spec fn utf8_len(c: char) -> nat {
    if (c as u32) < 0x80 { 1 } else if (c as u32) < 0x800 { 2 } else if (c as u32) < 0x10000 { 3 } else { 4 }
}

/// The byte offset of character `i` of `s`.
pub open spec fn byte_pos(s: Seq<char>, i: int) -> nat
    decreases i,
{
    if i <= 0 || i > s.len() { 0 } else { byte_pos(s, i - 1) + utf8_len(s[i - 1]) }
}

/// The byte span of characters `r.0..r.1`, each end held as `u32` (modulo 2^32).
pub open spec fn span_of(s: Seq<char>, r: (int, int)) -> Span {
    Span {
        start: (byte_pos(s, r.0) % 0x1_0000_0000) as u32,
        end: (byte_pos(s, r.1) % 0x1_0000_0000) as u32,
    }
}

// ---------------------------------------------------------------------------
// What the token shapes allow.

proof fn lemma_literals()
    ensures
        "pred"@ =~= seq!['p', 'r', 'e', 'd'],
        "domain"@ =~= seq!['d', 'o', 'm', 'a', 'i', 'n'],
        "input"@ =~= seq!['i', 'n', 'p', 'u', 't'],
        "from"@ =~= seq!['f', 'r', 'o', 'm'],
        "model"@ =~= seq!['m', 'o', 'd', 'e', 'l'],
        "neural"@ =~= seq!['n', 'e', 'u', 'r', 'a', 'l'],
        "not"@ =~= seq!['n', 'o', 't'],
        "int"@ =~= seq!['i', 'n', 't'],
        "term"@ =~= seq!['t', 'e', 'r', 'm'],
        "min"@ =~= seq!['m', 'i', 'n'],
        "max"@ =~= seq!['m', 'a', 'x'],
        "sum"@ =~= seq!['s', 'u', 'm'],
        "count"@ =~= seq!['c', 'o', 'u', 'n', 't'],
        "prob_or"@ =~= seq!['p', 'r', 'o', 'b', '_', 'o', 'r'],
        "Bool"@ =~= seq!['B', 'o', 'o', 'l'],
        "Trop"@ =~= seq!['T', 'r', 'o', 'p'],
        "Prov"@ =~= seq!['P', 'r', 'o', 'v'],
        "Prov_k"@ =~= seq!['P', 'r', 'o', 'v', '_', 'k'],
        "total"@ =~= seq!['t', 'o', 't', 'a', 'l'],
        "partial"@ =~= seq!['p', 'a', 'r', 't', 'i', 'a', 'l'],
        "complete"@ =~= seq!['c', 'o', 'm', 'p', 'l', 'e', 't', 'e'],
        "sound_only"@ =~= seq!['s', 'o', 'u', 'n', 'd', '_', 'o', 'n', 'l', 'y'],
        "deterministic"@ =~= seq!['d', 'e', 't', 'e', 'r', 'm', 'i', 'n', 'i', 's', 't', 'i', 'c'],
        "stochastic"@ =~= seq!['s', 't', 'o', 'c', 'h', 'a', 's', 't', 'i', 'c'],
        "?prob"@ =~= seq!['?', 'p', 'r', 'o', 'b'],
        "?grad"@ =~= seq!['?', 'g', 'r', 'a', 'd'],
        "?"@ =~= seq!['?'],
        "@terms"@ =~= seq!['@', 't', 'e', 'r', 'm', 's'],
        "@asp"@ =~= seq!['@', 'a', 's', 'p'],
        ":-"@ =~= seq![':', '-'],
        "::"@ =~= seq![':', ':'],
        ":"@ =~= seq![':'],
        "."@ =~= seq!['.'],
        ","@ =~= seq![','],
        "("@ =~= seq!['('],
        ")"@ =~= seq![')'],
        "<"@ =~= seq!['<'],
        ">"@ =~= seq!['>'],
{
    reveal_strlit("pred"); reveal_strlit("domain"); reveal_strlit("input"); reveal_strlit("from");
    reveal_strlit("model"); reveal_strlit("neural"); reveal_strlit("not"); reveal_strlit("int");
    reveal_strlit("term"); reveal_strlit("min"); reveal_strlit("max"); reveal_strlit("sum");
    reveal_strlit("count"); reveal_strlit("prob_or"); reveal_strlit("Bool"); reveal_strlit("Trop");
    reveal_strlit("Prov"); reveal_strlit("Prov_k"); reveal_strlit("total"); reveal_strlit("partial");
    reveal_strlit("complete"); reveal_strlit("sound_only"); reveal_strlit("deterministic");
    reveal_strlit("stochastic"); reveal_strlit("?prob"); reveal_strlit("?grad"); reveal_strlit("?");
    reveal_strlit("@terms"); reveal_strlit("@asp"); reveal_strlit(":-"); reveal_strlit("::");
    reveal_strlit(":"); reveal_strlit("."); reveal_strlit(","); reveal_strlit("(");
    reveal_strlit(")"); reveal_strlit("<"); reveal_strlit(">");
}

/// A reserved word is spelled like a constant or a variable.
proof fn lemma_keyword_word(w: Seq<char>)
    requires
        keyword(w) is Some,
    ensures
        var_shape(w) || const_shape(w),
{
    lemma_literals();
}

/// What a punctuation token looks like.
proof fn lemma_symbol_cases(w: Seq<char>)
    requires
        symbol(w) is Some,
    ensures
        w.len() >= 1,
        w[0] == '?' ==> (w == "?prob"@ || w == "?grad"@ || w == "?"@),
        w[0] == '@' ==> (w == "@terms"@ || w == "@asp"@),
        w[0] == ':' ==> (w == ":-"@ || w == "::"@ || w == ":"@),
        (w[0] == '.' || w[0] == ',' || w[0] == '(' || w[0] == ')' || w[0] == '<' || w[0] == '>') ==> w.len() == 1,
        w[0] == '?' || w[0] == '@' || w[0] == ':' || w[0] == '.' || w[0] == ',' || w[0] == '(' || w[0] == ')' || w[0] == '<' || w[0] == '>',
{
    lemma_literals();
}

/// The first character of a token's text decides its kind.
proof fn lemma_shape_first(w: Seq<char>)
    requires
        any_shape(w),
    ensures
        w.len() > 0,
        (is_upper(w[0]) || is_lower(w[0]) || w[0] == '_') ==> (var_shape(w) || const_shape(w)),
        (w[0] == '-' || is_digit(w[0])) ==> (int_shape(w) || float_shape(w)),
        w[0] == '"' ==> str_shape(w),
        w[0] == '%' ==> comment_shape(w),
        (w[0] == '?' || w[0] == '@' || w[0] == ':' || w[0] == '.' || w[0] == ',' || w[0] == '(' || w[0] == ')' || w[0] == '<' || w[0] == '>') ==> symbol(w) is Some,
        (is_upper(w[0]) || is_lower(w[0]) || w[0] == '_' || w[0] == '-' || is_digit(w[0]) || w[0] == '"' || w[0] == '%'
            || w[0] == '?' || w[0] == '@' || w[0] == ':' || w[0] == '.' || w[0] == ',' || w[0] == '(' || w[0] == ')' || w[0] == '<' || w[0] == '>'),
{
    if keyword(w) is Some {
        lemma_keyword_word(w);
    }
    if symbol(w) is Some {
        lemma_symbol_cases(w);
    }
    if float_shape(w) {
        let k = choose|k: int| #[trigger] float_at(w, k);
        assert(w.take(k)[0] == w[0]);
    }
}

/// The last shape is `e` when `s[i..e]` is spelled by a token and no longer
/// text from `i` is.
proof fn lemma_last_shape_is(s: Seq<char>, i: int, e: int, j: int)
    requires
        0 <= i < e <= j <= s.len(),
        any_shape(s.subrange(i, e)),
        forall|k: int| e < k <= s.len() ==> !any_shape(#[trigger] s.subrange(i, k)),
    ensures
        last_shape(s, i, j) == e,
    decreases j - e,
{
    if j > e {
        lemma_last_shape_is(s, i, e, j - 1);
    }
}

/// The last shape is `i` when no text from `i` is spelled by a token.
proof fn lemma_last_shape_none(s: Seq<char>, i: int, j: int)
    requires
        0 <= i <= j <= s.len(),
        forall|k: int| i < k <= s.len() ==> !any_shape(#[trigger] s.subrange(i, k)),
    ensures
        last_shape(s, i, j) == i,
    decreases j - i,
{
    if j > i {
        lemma_last_shape_none(s, i, j - 1);
    }
}

/// Numbers: with `d` the end of the digits after an optional sign, an integer
/// ends at `d`, and a fraction's point stands at `d`.
proof fn lemma_number_shapes(w: Seq<char>, p: int, d: int)
    requires
        w.len() > 0,
        w[0] == '-' || is_digit(w[0]),
        p == (if w[0] == '-' { 1int } else { 0int }),
        p <= d <= w.len(),
        forall|k: int| p <= k < d ==> is_digit(#[trigger] w[k]),
        d == w.len() || !is_digit(w[d]),
    ensures
        int_shape(w) ==> d == w.len() && d > p,
        forall|k: int| #[trigger] float_at(w, k) ==> k == d && d > p,
{
    if int_shape(w) {
        if d < w.len() {
            if w[0] == '-' {
                assert(w.drop_first()[d - 1] == w[d]);
            }
        }
        if d == p {
            if w[0] == '-' {
                assert(w.drop_first()[0] == w[1]);
            }
        }
    }
    assert forall|k: int| #[trigger] float_at(w, k) implies k == d && d > p by {
        let t = w.take(k);
        if k < d {
            assert(p <= k);
            assert(is_digit(w[k]));
        }
        if k > d {
            assert(t[d] == w[d]);
            if w[0] == '-' {
                assert(t.drop_first()[d - 1] == t[d]);
            }
        }
        if k == d && d == p {
            assert(p == 1);
            assert(t[0] == w[0]);
            assert(t.drop_first().len() == 0);
        }
    }
}

// ---------------------------------------------------------------------------
// Scanning.

fn word_char(c: char) -> (b: bool)
    ensures
        b == is_word_char(c),
{
    ('A' <= c && c <= 'Z') || ('a' <= c && c <= 'z') || ('0' <= c && c <= '9') || c == '_'
}

fn digit(c: char) -> (b: bool)
    ensures
        b == is_digit(c),
{
    '0' <= c && c <= '9'
}

/// The end of the run of word characters from `from`.
fn word_end(cs: &Vec<char>, from: usize) -> (e: usize)
    requires
        from <= cs@.len(),
    ensures
        from <= e <= cs@.len(),
        forall|k: int| from <= k < e ==> is_word_char(#[trigger] cs@[k]),
        e == cs@.len() || !is_word_char(cs@[e as int]),
{
    let mut e = from;
    while e < cs.len() && word_char(cs[e])
        invariant
            from <= e <= cs@.len(),
            forall|k: int| from <= k < e ==> is_word_char(#[trigger] cs@[k]),
        decreases cs@.len() - e,
    {
        e = e + 1;
    }
    e
}

/// The end of the run of digits from `from`.
fn digit_end(cs: &Vec<char>, from: usize) -> (e: usize)
    requires
        from <= cs@.len(),
    ensures
        from <= e <= cs@.len(),
        forall|k: int| from <= k < e ==> is_digit(#[trigger] cs@[k]),
        e == cs@.len() || !is_digit(cs@[e as int]),
{
    let mut e = from;
    while e < cs.len() && digit(cs[e])
        invariant
            from <= e <= cs@.len(),
            forall|k: int| from <= k < e ==> is_digit(#[trigger] cs@[k]),
        decreases cs@.len() - e,
    {
        e = e + 1;
    }
    e
}

/// The position of the first line feed from `from`, or the end.
fn line_end(cs: &Vec<char>, from: usize) -> (e: usize)
    requires
        from <= cs@.len(),
    ensures
        from <= e <= cs@.len(),
        forall|k: int| from <= k < e ==> #[trigger] cs@[k] != '\n',
        e == cs@.len() || cs@[e as int] == '\n',
{
    let mut e = from;
    while e < cs.len() && cs[e] != '\n'
        invariant
            from <= e <= cs@.len(),
            forall|k: int| from <= k < e ==> #[trigger] cs@[k] != '\n',
        decreases cs@.len() - e,
    {
        e = e + 1;
    }
    e
}

/// The position of the first double quote from `from`, if any.
fn quote_at(cs: &Vec<char>, from: usize) -> (r: Option<usize>)
    requires
        from <= cs@.len(),
    ensures
        r matches Some(q) ==> from <= q < cs@.len() && cs@[q as int] == '"',
        forall|k: int| from <= k < cs@.len() && (r matches Some(q) ==> k < q) ==> #[trigger] cs@[k] != '"',
{
    let mut e = from;
    while e < cs.len()
        invariant
            from <= e <= cs@.len(),
            forall|k: int| from <= k < e ==> #[trigger] cs@[k] != '"',
        decreases cs@.len() - e,
    {
        if cs[e] == '"' {
            return Some(e);
        }
        e = e + 1;
    }
    None
}

/// Whether the characters from `i` spell `lit`.
fn lit_at(cs: &Vec<char>, i: usize, lit: &str) -> (b: bool)
    requires
        i <= cs@.len(),
    ensures
        b == (i + lit@.len() <= cs@.len() && cs@.subrange(i as int, i + lit@.len()) == lit@),
{
    let n = lit.unicode_len();
    let lim = cs.len();
    if n > lim - i {
        return false;
    }
    let mut k: usize = 0;
    while k < n
        invariant
            k <= n,
            n == lit@.len(),
            lim == cs@.len(),
            i + n <= lim,
            forall|m: int| 0 <= m < k ==> cs@[i + m] == lit@[m],
        decreases n - k,
    {
        if cs[i + k] != lit.get_char(k) {
            assert(cs@.subrange(i as int, i + n)[k as int] != lit@[k as int]);
            return false;
        }
        k = k + 1;
    }
    assert(cs@.subrange(i as int, i + n) =~= lit@);
    true
}

/// Whether the characters `i..e` spell `lit`.
fn word_is(cs: &Vec<char>, i: usize, e: usize, lit: &str) -> (b: bool)
    requires
        i <= e <= cs@.len(),
    ensures
        b == (cs@.subrange(i as int, e as int) == lit@),
{
    if e - i != lit.unicode_len() {
        assert(cs@.subrange(i as int, e as int).len() != lit@.len());
        return false;
    }
    lit_at(cs, i, lit)
}

/// The reserved word spelled by the characters `i..e`, if any.
fn keyword_at(cs: &Vec<char>, i: usize, e: usize) -> (r: Option<Tok>)
    requires
        i <= e <= cs@.len(),
    ensures
        r == keyword(cs@.subrange(i as int, e as int)),
{
    if word_is(cs, i, e, "pred") { Some(Tok::Pred) }
    else if word_is(cs, i, e, "domain") { Some(Tok::Domain) }
    else if word_is(cs, i, e, "input") { Some(Tok::Input) }
    else if word_is(cs, i, e, "from") { Some(Tok::From) }
    else if word_is(cs, i, e, "model") { Some(Tok::Model) }
    else if word_is(cs, i, e, "neural") { Some(Tok::Neural) }
    else if word_is(cs, i, e, "not") { Some(Tok::Not) }
    else if word_is(cs, i, e, "int") { Some(Tok::Int) }
    else if word_is(cs, i, e, "term") { Some(Tok::Term) }
    else if word_is(cs, i, e, "min") { Some(Tok::Min) }
    else if word_is(cs, i, e, "max") { Some(Tok::Max) }
    else if word_is(cs, i, e, "sum") { Some(Tok::Sum) }
    else if word_is(cs, i, e, "count") { Some(Tok::Count) }
    else if word_is(cs, i, e, "prob_or") { Some(Tok::ProbOr) }
    else if word_is(cs, i, e, "Bool") { Some(Tok::Bool) }
    else if word_is(cs, i, e, "Trop") { Some(Tok::Trop) }
    else if word_is(cs, i, e, "Prov") { Some(Tok::Prov) }
    else if word_is(cs, i, e, "Prov_k") { Some(Tok::ProvK) }
    else if word_is(cs, i, e, "total") { Some(Tok::Total) }
    else if word_is(cs, i, e, "partial") { Some(Tok::Partial) }
    else if word_is(cs, i, e, "complete") { Some(Tok::Complete) }
    else if word_is(cs, i, e, "sound_only") { Some(Tok::SoundOnly) }
    else if word_is(cs, i, e, "deterministic") { Some(Tok::Deterministic) }
    else if word_is(cs, i, e, "stochastic") { Some(Tok::Stochastic) }
    else { None }
}

/// The punctuation token spelled by the characters `i..e`, if any.
fn symbol_at(cs: &Vec<char>, i: usize, e: usize) -> (r: Option<Tok>)
    requires
        i <= e <= cs@.len(),
    ensures
        r == symbol(cs@.subrange(i as int, e as int)),
{
    if word_is(cs, i, e, "?prob") { Some(Tok::QProb) }
    else if word_is(cs, i, e, "?grad") { Some(Tok::QGrad) }
    else if word_is(cs, i, e, "?") { Some(Tok::Question) }
    else if word_is(cs, i, e, "@terms") { Some(Tok::AtTerms) }
    else if word_is(cs, i, e, "@asp") { Some(Tok::AtAsp) }
    else if word_is(cs, i, e, ":-") { Some(Tok::ColonDash) }
    else if word_is(cs, i, e, "::") { Some(Tok::DoubleColon) }
    else if word_is(cs, i, e, ":") { Some(Tok::Colon) }
    else if word_is(cs, i, e, ".") { Some(Tok::Dot) }
    else if word_is(cs, i, e, ",") { Some(Tok::Comma) }
    else if word_is(cs, i, e, "(") { Some(Tok::LParen) }
    else if word_is(cs, i, e, ")") { Some(Tok::RParen) }
    else if word_is(cs, i, e, "<") { Some(Tok::Lt) }
    else if word_is(cs, i, e, ">") { Some(Tok::Gt) }
    else { None }
}

/// A word from `i`: it runs to the end of the word characters.
fn word_match(cs: &Vec<char>, i: usize) -> (e: usize)
    requires
        i < cs@.len(),
        is_upper(cs@[i as int]) || is_lower(cs@[i as int]) || cs@[i as int] == '_',
    ensures
        e == last_shape(cs@, i as int, cs@.len() as int),
{
    let ghost s = cs@;
    let n = cs.len();
    let e = word_end(cs, i + 1);
    proof {
        let w = s.subrange(i as int, e as int);
        assert forall|k: int| 0 < k < w.len() implies is_word_char(#[trigger] w[k]) by {
            assert(w[k] == s[i + k]);
        }
        assert(any_shape(w));
        assert forall|k: int| e < k <= s.len() implies !any_shape(#[trigger] s.subrange(i as int, k)) by {
            let w2 = s.subrange(i as int, k);
            if any_shape(w2) {
                lemma_shape_first(w2);
                assert(w2[0] == s[i as int]);
                assert(w2[e - i] == s[e as int]);
            }
        }
        lemma_last_shape_is(s, i as int, e as int, s.len() as int);
    }
    e
}

/// A number from `i`: the digits, and a fraction if a point and a digit follow.
fn number_match(cs: &Vec<char>, i: usize) -> (e: usize)
    requires
        i < cs@.len(),
        cs@[i as int] == '-' || is_digit(cs@[i as int]),
    ensures
        e == last_shape(cs@, i as int, cs@.len() as int),
{
    let ghost s = cs@;
    let n = cs.len();
    let p = if cs[i] == '-' { i + 1 } else { i };
    let d1 = digit_end(cs, p);
    if d1 == p {
        proof {
            assert forall|k: int| i < k <= s.len() implies !any_shape(#[trigger] s.subrange(i as int, k)) by {
                let w2 = s.subrange(i as int, k);
                if any_shape(w2) {
                    lemma_shape_first(w2);
                    assert(w2[0] == s[i as int]);
                    if k > d1 {
                        assert(w2[d1 - i] == s[d1 as int]);
                    }
                    lemma_number_shapes(w2, p - i, d1 - i);
                    if float_shape(w2) {
                        let q = choose|q: int| #[trigger] float_at(w2, q);
                        assert(float_at(w2, q));
                    }
                }
            }
            lemma_last_shape_none(s, i as int, s.len() as int);
        }
        return i;
    }
    if d1 < n - 1 && cs[d1] == '.' && digit(cs[d1 + 1]) {
        let d2 = digit_end(cs, d1 + 1);
        proof {
            let w = s.subrange(i as int, d2 as int);
            let k0 = d1 - i;
            assert(w.take(k0) =~= s.subrange(i as int, d1 as int));
            assert(w.skip(k0 + 1) =~= s.subrange(d1 + 1, d2 as int));
            let t = w.take(k0);
            if s[i as int] == '-' {
                assert(t.drop_first() =~= s.subrange(p as int, d1 as int));
            }
            assert(int_shape(t));
            assert(float_at(w, k0));
            assert(any_shape(w));
            assert forall|k: int| d2 < k <= s.len() implies !any_shape(#[trigger] s.subrange(i as int, k)) by {
                let w2 = s.subrange(i as int, k);
                if any_shape(w2) {
                    lemma_shape_first(w2);
                    assert(w2[0] == s[i as int]);
                    assert forall|m: int| p - i <= m < d1 - i implies is_digit(#[trigger] w2[m]) by {
                        assert(w2[m] == s[i + m]);
                    }
                    assert(w2[d1 - i] == s[d1 as int]);
                    lemma_number_shapes(w2, p - i, d1 - i);
                    let q = choose|q: int| #[trigger] float_at(w2, q);
                    assert(q == d1 - i);
                    assert(w2.skip(q + 1)[d2 - d1 - 1] == s[d2 as int]);
                }
            }
            lemma_last_shape_is(s, i as int, d2 as int, s.len() as int);
        }
        d2
    } else {
        proof {
            let w = s.subrange(i as int, d1 as int);
            if s[i as int] == '-' {
                assert(w.drop_first() =~= s.subrange(p as int, d1 as int));
            }
            assert(int_shape(w));
            assert forall|k: int| d1 < k <= s.len() implies !any_shape(#[trigger] s.subrange(i as int, k)) by {
                let w2 = s.subrange(i as int, k);
                if any_shape(w2) {
                    lemma_shape_first(w2);
                    assert(w2[0] == s[i as int]);
                    assert forall|m: int| p - i <= m < d1 - i implies is_digit(#[trigger] w2[m]) by {
                        assert(w2[m] == s[i + m]);
                    }
                    assert(w2[d1 - i] == s[d1 as int]);
                    lemma_number_shapes(w2, p - i, d1 - i);
                    if float_shape(w2) {
                        let q = choose|q: int| #[trigger] float_at(w2, q);
                        assert(q == d1 - i);
                        assert(w2.skip(q + 1)[0] == s[d1 + 1]);
                    }
                }
            }
            lemma_last_shape_is(s, i as int, d1 as int, s.len() as int);
        }
        d1
    }
}

/// A string literal from `i`: it runs to the next double quote.
fn quote_match(cs: &Vec<char>, i: usize) -> (e: usize)
    requires
        i < cs@.len(),
        cs@[i as int] == '"',
    ensures
        e == last_shape(cs@, i as int, cs@.len() as int),
{
    let ghost s = cs@;
    let n = cs.len();
    match quote_at(cs, i + 1) {
        Some(q) => {
            proof {
                let w = s.subrange(i as int, q + 1);
                assert forall|k: int| 0 < k < w.len() - 1 implies #[trigger] w[k] != '"' by {
                    assert(w[k] == s[i + k]);
                }
                assert(str_shape(w));
                assert forall|k: int| q + 1 < k <= s.len() implies !any_shape(#[trigger] s.subrange(i as int, k)) by {
                    let w2 = s.subrange(i as int, k);
                    if any_shape(w2) {
                        lemma_shape_first(w2);
                        assert(w2[0] == s[i as int]);
                        assert(w2[q - i] == s[q as int]);
                    }
                }
                lemma_last_shape_is(s, i as int, q + 1, s.len() as int);
            }
            q + 1
        },
        None => {
            proof {
                assert forall|k: int| i < k <= s.len() implies !any_shape(#[trigger] s.subrange(i as int, k)) by {
                    let w2 = s.subrange(i as int, k);
                    if any_shape(w2) {
                        lemma_shape_first(w2);
                        assert(w2[0] == s[i as int]);
                        assert(w2.last() == s[k - 1]);
                    }
                }
                lemma_last_shape_none(s, i as int, s.len() as int);
            }
            i
        },
    }
}

/// A comment from `i`: it runs to the end of the line.
fn comment_match(cs: &Vec<char>, i: usize) -> (e: usize)
    requires
        i < cs@.len(),
        cs@[i as int] == '%',
    ensures
        e == last_shape(cs@, i as int, cs@.len() as int),
{
    let ghost s = cs@;
    let n = cs.len();
    let e = line_end(cs, i + 1);
    proof {
        let w = s.subrange(i as int, e as int);
        assert forall|k: int| 0 < k < w.len() implies #[trigger] w[k] != '\n' by {
            assert(w[k] == s[i + k]);
        }
        assert(comment_shape(w));
        assert forall|k: int| e < k <= s.len() implies !any_shape(#[trigger] s.subrange(i as int, k)) by {
            let w2 = s.subrange(i as int, k);
            if any_shape(w2) {
                lemma_shape_first(w2);
                assert(w2[0] == s[i as int]);
                assert(w2[e - i] == s[e as int]);
            }
        }
        lemma_last_shape_is(s, i as int, e as int, s.len() as int);
    }
    e
}

/// Punctuation from `i`: the longest symbol spelled there, if any.
fn symbol_match(cs: &Vec<char>, i: usize) -> (e: usize)
    requires
        i < cs@.len(),
        ({ let c = cs@[i as int]; c == '?' || c == '@' || c == ':' || c == '.' || c == ',' || c == '(' || c == ')' || c == '<' || c == '>' }),
    ensures
        e == last_shape(cs@, i as int, cs@.len() as int),
{
    let ghost s = cs@;
    let n = cs.len();
    proof {
        lemma_literals();
    }
    let c = cs[i];
    let e: usize = if c == '?' {
        if lit_at(cs, i, "?prob") || lit_at(cs, i, "?grad") { i + 5 } else { i + 1 }
    } else if c == '@' {
        if lit_at(cs, i, "@terms") { i + 6 } else if lit_at(cs, i, "@asp") { i + 4 } else { i }
    } else if c == ':' {
        if lit_at(cs, i, ":-") || lit_at(cs, i, "::") { i + 2 } else { i + 1 }
    } else {
        i + 1
    };
    proof {
        lemma_literals();
        assert forall|k: int| e < k <= s.len() implies !any_shape(#[trigger] s.subrange(i as int, k)) by {
            let w2 = s.subrange(i as int, k);
            if any_shape(w2) {
                lemma_shape_first(w2);
                assert(w2[0] == c);
                lemma_symbol_cases(w2);
            }
        }
        if e > i {
            let w = s.subrange(i as int, e as int);
            if e == i + 1 {
                assert(w =~= seq![c]);
            }
            assert(symbol(w) is Some);
            lemma_last_shape_is(s, i as int, e as int, s.len() as int);
        } else {
            lemma_last_shape_none(s, i as int, s.len() as int);
        }
    }
    e
}

/// The end of the longest token text from `i` (`i` if none).
fn match_at(cs: &Vec<char>, i: usize) -> (e: usize)
    requires
        i < cs@.len(),
    ensures
        e == last_shape(cs@, i as int, cs@.len() as int),
{
    let c = cs[i];
    if ('A' <= c && c <= 'Z') || ('a' <= c && c <= 'z') || c == '_' {
        word_match(cs, i)
    } else if c == '-' || digit(c) {
        number_match(cs, i)
    } else if c == '"' {
        quote_match(cs, i)
    } else if c == '%' {
        comment_match(cs, i)
    } else if c == '?' || c == '@' || c == ':' || c == '.' || c == ',' || c == '(' || c == ')' || c == '<' || c == '>' {
        symbol_match(cs, i)
    } else {
        proof {
            let s = cs@;
            assert forall|k: int| i < k <= s.len() implies !any_shape(#[trigger] s.subrange(i as int, k)) by {
                let w2 = s.subrange(i as int, k);
                if any_shape(w2) {
                    lemma_shape_first(w2);
                    assert(w2[0] == c);
                }
            }
            lemma_last_shape_none(s, i as int, s.len() as int);
        }
        i
    }
}

// ---------------------------------------------------------------------------
// Token values.

/// The value of a prefix of digits is at most that of the whole.
proof fn lemma_digits_mono(w: Seq<char>, k: int)
    requires
        0 <= k <= w.len(),
    ensures
        digits_value(w.take(k)) <= digits_value(w),
    decreases w.len() - k,
{
    if k < w.len() {
        lemma_digits_mono(w, k + 1);
        assert(w.take(k + 1).drop_last() =~= w.take(k));
    } else {
        assert(w.take(k) =~= w);
    }
}

/// The value of an integer literal, if it is an `i64`.
fn int_value_of(cs: &Vec<char>, i: usize, j: usize) -> (r: Option<i64>)
    requires
        i < j <= cs@.len(),
        int_shape(cs@.subrange(i as int, j as int)),
    ensures
        r matches Some(v) ==> v == int_value(cs@.subrange(i as int, j as int)),
        r is None <==> int_overflow(cs@.subrange(i as int, j as int)),
{
    let ghost w = cs@.subrange(i as int, j as int);
    let neg = cs[i] == '-';
    let p = if neg { i + 1 } else { i };
    let ghost ds = cs@.subrange(p as int, j as int);
    proof {
        if neg {
            assert(w.drop_first() =~= ds);
            assert(w[0] == '-');
        } else {
            assert(w =~= ds);
            assert(w[0] != '-') by {
                if w[0] == '-' { assert(w.drop_first()[0] == w[1]); assert(is_digit(w[0])); }
            }
        }
        assert(int_value(w) == if neg { -(digits_value(ds) as int) } else { digits_value(ds) as int });
    }
    let limit: u64 = if neg { 9223372036854775808u64 } else { 9223372036854775807u64 };
    let mut mag: u64 = 0;
    let mut k: usize = p;
    while k < j
        invariant
            p <= k <= j,
            j <= cs@.len(),
            ds == cs@.subrange(p as int, j as int),
            all_digits(ds),
            mag as nat == digits_value(ds.take(k - p)),
            mag <= limit,
            limit == (if neg { 9223372036854775808u64 } else { 9223372036854775807u64 }),
            w == cs@.subrange(i as int, j as int),
            int_shape(w),
            int_value(w) == if neg { -(digits_value(ds) as int) } else { digits_value(ds) as int },
        decreases j - k,
    {
        let c = cs[k];
        assert(is_digit(ds[k - p]));
        let d: u64 = (c as u32 - 48u32) as u64;
        assert(d <= 9);
        assert(d as nat == crate::text::digit_val(c));
        proof {
            assert(ds.take(k - p + 1).drop_last() =~= ds.take(k - p));
            assert(ds.take(k - p + 1).last() == c);
        }
        if mag > (limit - d) / 10 {
            proof {
                assert(mag * 10 + d > limit) by (nonlinear_arith)
                    requires mag > (limit - d) / 10, d <= 9, limit >= 9;
                lemma_digits_mono(ds, k - p + 1);
                assert(ds.take(ds.len() as int) =~= ds);
            }
            return None;
        }
        proof {
            assert(mag * 10 + d <= limit) by (nonlinear_arith)
                requires mag <= (limit - d) / 10, d <= 9, limit >= 9;
        }
        mag = mag * 10 + d;
        k = k + 1;
    }
    proof {
        assert(ds.take(k - p) =~= ds);
    }
    if neg {
        if mag == 9223372036854775808u64 {
            Some(i64::MIN)
        } else {
            Some(-(mag as i64))
        }
    } else {
        Some(mag as i64)
    }
}

/// The end of `s[i..j]` without its trailing whitespace.
fn trim_end_at(cs: &Vec<char>, i: usize, j: usize) -> (t: usize)
    requires
        i < j <= cs@.len(),
        !is_ws(cs@[i as int]),
    ensures
        i < t <= j,
        cs@.subrange(i as int, t as int) == trim_end(cs@.subrange(i as int, j as int)),
{
    let mut t = j;
    while t > i + 1 && crate::text::ws(cs[t - 1])
        invariant
            i < t <= j,
            j <= cs@.len(),
            trim_end(cs@.subrange(i as int, t as int)) == trim_end(cs@.subrange(i as int, j as int)),
        decreases t - i,
    {
        proof {
            let w = cs@.subrange(i as int, t as int);
            assert(w.last() == cs@[t - 1]);
            assert(w.drop_last() =~= cs@.subrange(i as int, t - 1));
        }
        t = t - 1;
    }
    proof {
        let w = cs@.subrange(i as int, t as int);
        assert(w.last() == cs@[t - 1]);
    }
    t
}

/// The token that the characters `i..j` spell; `None` for an integer literal
/// out of `i64` range.
fn token_at(src: &str, cs: &Vec<char>, i: usize, j: usize) -> (r: Option<Tok>)
    requires
        cs@ == src@,
        i < j <= cs@.len(),
        any_shape(cs@.subrange(i as int, j as int)),
    ensures
        r matches Some(t) ==> tok_is(t, cs@.subrange(i as int, j as int)),
        r is None <==> int_overflow(cs@.subrange(i as int, j as int)),
{
    let ghost w = cs@.subrange(i as int, j as int);
    proof {
        lemma_shape_first(w);
        assert(w[0] == cs@[i as int]);
    }
    if let Some(k) = keyword_at(cs, i, j) {
        proof { lemma_keyword_word(w); }
        return Some(k);
    }
    if let Some(k) = symbol_at(cs, i, j) {
        proof { lemma_symbol_cases(w); }
        return Some(k);
    }
    let c = cs[i];
    if ('A' <= c && c <= 'Z') || c == '_' {
        Some(Tok::Var(String::from_str(src.substring_char(i, j))))
    } else if 'a' <= c && c <= 'z' {
        Some(Tok::Const(String::from_str(src.substring_char(i, j))))
    } else if c == '-' || digit(c) {
        let p = if c == '-' { i + 1 } else { i };
        let d = digit_end(cs, p);
        proof {
            let dd = if d < j { d - i } else { j - i };
            assert forall|m: int| p - i <= m < dd implies is_digit(#[trigger] w[m]) by {
                assert(w[m] == cs@[i + m]);
            }
            if d < j {
                assert(w[d - i] == cs@[d as int]);
            }
            lemma_number_shapes(w, p - i, dd);
        }
        if d >= j {
            match int_value_of(cs, i, j) {
                Some(v) => Some(Tok::IntLit(v)),
                None => None,
            }
        } else {
            Some(Tok::Float(String::from_str(src.substring_char(i, j))))
        }
    } else if c == '"' {
        proof {
            assert(cs@.subrange(i + 1, j - 1) =~= w.subrange(1, w.len() - 1));
        }
        Some(Tok::Str(String::from_str(src.substring_char(i + 1, j - 1))))
    } else {
        assert(c == '%');
        let t = trim_end_at(cs, i, j);
        Some(Tok::Comment(String::from_str(src.substring_char(i, t))))
    }
}

// ---------------------------------------------------------------------------
// The lexer.

/// The number of bytes of `c` in UTF-8.
fn char_len(c: char) -> (n: u32)
    ensures
        n as nat == utf8_len(c),
{
    let x = c as u32;
    if x < 0x80 { 1 } else if x < 0x800 { 2 } else if x < 0x10000 { 3 } else { 4 }
}

/// The byte offset of character `to`, modulo 2^32, from that of `from`.
fn advance(cs: &Vec<char>, from: usize, to: usize, pos: u32) -> (r: u32)
    requires
        from <= to <= cs@.len(),
        pos as nat == byte_pos(cs@, from as int) % 0x1_0000_0000,
    ensures
        r as nat == byte_pos(cs@, to as int) % 0x1_0000_0000,
{
    let mut k = from;
    let mut r = pos;
    while k < to
        invariant
            from <= k <= to,
            to <= cs@.len(),
            r as nat == byte_pos(cs@, k as int) % 0x1_0000_0000,
        decreases to - k,
    {
        let n = char_len(cs[k]);
        proof {
            assert(byte_pos(cs@, k + 1) == byte_pos(cs@, k as int) + utf8_len(cs@[k as int]));
            vstd::arithmetic::div_mod::lemma_add_mod_noop(byte_pos(cs@, k as int) as int, n as int, 0x1_0000_0000int);
            assert(n as int % 0x1_0000_0000int == n as int);
        }
        r = r.wrapping_add(n);
        k = k + 1;
    }
    r
}

/// Tokenize `src`. Each piece that starts no token (one character) and each
/// integer literal out of `i64` range is reported in `errors` by its span, and
/// the scan goes on after it.
pub fn lex(src: &str, errors: &mut Vec<Span>) -> (out: Vec<Spanned>)
    ensures
        out@.len() == scan(src@, 0).0.len(),
        forall|k: int| 0 <= k < out@.len() ==> {
            let r = #[trigger] scan(src@, 0).0[k];
            tok_is(out@[k].tok, src@.subrange(r.0, r.1)) && out@[k].span == span_of(src@, r)
        },
        final(errors)@.len() == old(errors)@.len() + scan(src@, 0).1.len(),
        forall|k: int| 0 <= k < old(errors)@.len() ==> final(errors)@[k] == old(errors)@[k],
        forall|k: int| 0 <= k < scan(src@, 0).1.len() ==> final(errors)@[old(errors)@.len() + k] == span_of(src@, #[trigger] scan(src@, 0).1[k]),
{
    let cs = crate::text::chars_of(src);
    let ghost s = src@;
    let ghost e0 = errors@;
    let n = cs.len();
    let mut out: Vec<Spanned> = Vec::new();
    let mut i: usize = 0;
    let mut pos: u32 = 0;
    let ghost mut done_t: Seq<(int, int)> = Seq::empty();
    let ghost mut done_e: Seq<(int, int)> = Seq::empty();
    while i < n
        invariant
            cs@ == s,
            s == src@,
            n == s.len(),
            i <= n,
            pos as nat == byte_pos(s, i as int) % 0x1_0000_0000,
            scan(s, 0).0 == done_t + scan(s, i as int).0,
            scan(s, 0).1 == done_e + scan(s, i as int).1,
            out@.len() == done_t.len(),
            forall|k: int| 0 <= k < out@.len() ==> {
                let r = #[trigger] done_t[k];
                tok_is(out@[k].tok, s.subrange(r.0, r.1)) && out@[k].span == span_of(s, r)
            },
            errors@.len() == e0.len() + done_e.len(),
            forall|k: int| 0 <= k < e0.len() ==> errors@[k] == e0[k],
            forall|k: int| 0 <= k < done_e.len() ==> errors@[e0.len() + k] == span_of(s, #[trigger] done_e[k]),
        decreases n - i,
    {
        let c = cs[i];
        if c == ' ' || c == '\t' || c == '\r' || c == '\n' {
            let p2 = advance(&cs, i, i + 1, pos);
            i = i + 1;
            pos = p2;
        } else {
            let j = match_at(&cs, i);
            let ghost li = last_shape(s, i as int, s.len() as int);
            proof {
                lemma_last_shape_bounds(s, i as int, s.len() as int);
            }
            if j == i {
                let p2 = advance(&cs, i, i + 1, pos);
                let ghost eb = errors@;
                errors.push(Span { start: pos, end: p2 });
                proof {
                    let r = scan(s, i + 1);
                    assert(scan(s, i as int) == (r.0, seq![(i as int, i + 1)] + r.1));
                    assert(done_e + scan(s, i as int).1 =~= done_e.push((i as int, i + 1)) + r.1);
                    done_e = done_e.push((i as int, i + 1));
                    assert forall|k: int| 0 <= k < done_e.len() implies errors@[e0.len() + k] == span_of(s, #[trigger] done_e[k]) by {
                        if k < done_e.len() - 1 {
                            assert(errors@[e0.len() + k] == eb[e0.len() + k]);
                        }
                    }
                }
                i = i + 1;
                pos = p2;
            } else {
                let p2 = advance(&cs, i, j, pos);
                let t = token_at(src, &cs, i, j);
                let ghost r = scan(s, j as int);
                proof {
                    assert(any_shape(s.subrange(i as int, j as int)));
                }
                match t {
                    Some(tok) => {
                        proof {
                            assert(scan(s, i as int) == (seq![(i as int, j as int)] + r.0, r.1));
                            assert(done_t + scan(s, i as int).0 =~= done_t.push((i as int, j as int)) + r.0);
                        }
                        out.push(Spanned { tok, span: Span { start: pos, end: p2 } });
                        proof {
                            let ghost d0 = done_t;
                            done_t = done_t.push((i as int, j as int));
                            assert forall|k: int| 0 <= k < out@.len() implies {
                                let r = #[trigger] done_t[k];
                                tok_is(out@[k].tok, s.subrange(r.0, r.1)) && out@[k].span == span_of(s, r)
                            } by {
                                if k < d0.len() {
                                    assert(done_t[k] == d0[k]);
                                }
                            }
                        }
                    },
                    None => {
                        let ghost eb = errors@;
                        errors.push(Span { start: pos, end: p2 });
                        proof {
                            assert(scan(s, i as int) == (r.0, seq![(i as int, j as int)] + r.1));
                            assert(done_e + scan(s, i as int).1 =~= done_e.push((i as int, j as int)) + r.1);
                            done_e = done_e.push((i as int, j as int));
                            assert forall|k: int| 0 <= k < done_e.len() implies errors@[e0.len() + k] == span_of(s, #[trigger] done_e[k]) by {
                                if k < done_e.len() - 1 {
                                    assert(errors@[e0.len() + k] == eb[e0.len() + k]);
                                }
                            }
                        }
                    },
                }
                i = j;
                pos = p2;
            }
        }
    }
    proof {
        assert(scan(s, i as int).0.len() == 0);
        assert(done_t + scan(s, i as int).0 =~= done_t);
        assert(done_e + scan(s, i as int).1 =~= done_e);
    }
    out
}

/// What a token is called in a diagnostic: a literal by its kind and text,
/// a keyword or a punctuation by its name or text in backquotes.
pub open spec fn describe_spec(t: Tok) -> Seq<char> {
    match t {
        Tok::Var(s) => "variable `"@ + s@ + "`"@,
        Tok::Const(s) => "identifier `"@ + s@ + "`"@,
        Tok::IntLit(n) => "integer `"@ + dec_int(n as int) + "`"@,
        Tok::Float(s) => "number `"@ + s@ + "`"@,
        Tok::Str(s) => "string "@ + debug_str(s@),
        Tok::Comment(_) => "comment"@,
        Tok::ColonDash => "`:-`"@,
        Tok::Dot => "`.`"@,
        Tok::Pred => "`Pred`"@,
        Tok::Domain => "`Domain`"@,
        Tok::Input => "`Input`"@,
        Tok::From => "`From`"@,
        Tok::Model => "`Model`"@,
        Tok::Neural => "`Neural`"@,
        Tok::Not => "`Not`"@,
        Tok::Int => "`Int`"@,
        Tok::Term => "`Term`"@,
        Tok::Min => "`Min`"@,
        Tok::Max => "`Max`"@,
        Tok::Sum => "`Sum`"@,
        Tok::Count => "`Count`"@,
        Tok::ProbOr => "`ProbOr`"@,
        Tok::Bool => "`Bool`"@,
        Tok::Trop => "`Trop`"@,
        Tok::Prov => "`Prov`"@,
        Tok::ProvK => "`ProvK`"@,
        Tok::Total => "`Total`"@,
        Tok::Partial => "`Partial`"@,
        Tok::Complete => "`Complete`"@,
        Tok::SoundOnly => "`SoundOnly`"@,
        Tok::Deterministic => "`Deterministic`"@,
        Tok::Stochastic => "`Stochastic`"@,
        Tok::QProb => "`QProb`"@,
        Tok::QGrad => "`QGrad`"@,
        Tok::Question => "`Question`"@,
        Tok::AtTerms => "`AtTerms`"@,
        Tok::AtAsp => "`AtAsp`"@,
        Tok::DoubleColon => "`DoubleColon`"@,
        Tok::Colon => "`Colon`"@,
        Tok::Comma => "`Comma`"@,
        Tok::LParen => "`LParen`"@,
        Tok::RParen => "`RParen`"@,
        Tok::Lt => "`Lt`"@,
        Tok::Gt => "`Gt`"@,
    }
}

impl Tok {
    /// The token's name for a diagnostic (`expected …, found <name>`).
    pub fn describe(&self) -> (s: String)
        ensures
            s@ == describe_spec(*self),
    {
        match self {
            Tok::Var(v) => {
                let mut s = String::from_str("variable `");
                s.append(v.as_str());
                s.append("`");
                proof { reveal_strlit("variable `"); reveal_strlit("`"); }
                assert(s@ =~= describe_spec(*self));
                s
            },
            Tok::Const(v) => {
                let mut s = String::from_str("identifier `");
                s.append(v.as_str());
                s.append("`");
                proof { reveal_strlit("identifier `"); reveal_strlit("`"); }
                assert(s@ =~= describe_spec(*self));
                s
            },
            Tok::IntLit(n) => {
                let mut s = String::from_str("integer `");
                push_int(&mut s, *n);
                s.append("`");
                proof { reveal_strlit("integer `"); reveal_strlit("`"); }
                assert(s@ =~= describe_spec(*self));
                s
            },
            Tok::Float(v) => {
                let mut s = String::from_str("number `");
                s.append(v.as_str());
                s.append("`");
                proof { reveal_strlit("number `"); reveal_strlit("`"); }
                assert(s@ =~= describe_spec(*self));
                s
            },
            Tok::Str(v) => {
                let mut s = String::from_str("string ");
                let q = debug_string(v.as_str());
                s.append(q.as_str());
                proof { reveal_strlit("string "); }
                assert(s@ =~= describe_spec(*self));
                s
            },
            Tok::Comment(_) => String::from_str("comment"),
            Tok::ColonDash => String::from_str("`:-`"),
            Tok::Dot => String::from_str("`.`"),
            Tok::Pred => String::from_str("`Pred`"),
            Tok::Domain => String::from_str("`Domain`"),
            Tok::Input => String::from_str("`Input`"),
            Tok::From => String::from_str("`From`"),
            Tok::Model => String::from_str("`Model`"),
            Tok::Neural => String::from_str("`Neural`"),
            Tok::Not => String::from_str("`Not`"),
            Tok::Int => String::from_str("`Int`"),
            Tok::Term => String::from_str("`Term`"),
            Tok::Min => String::from_str("`Min`"),
            Tok::Max => String::from_str("`Max`"),
            Tok::Sum => String::from_str("`Sum`"),
            Tok::Count => String::from_str("`Count`"),
            Tok::ProbOr => String::from_str("`ProbOr`"),
            Tok::Bool => String::from_str("`Bool`"),
            Tok::Trop => String::from_str("`Trop`"),
            Tok::Prov => String::from_str("`Prov`"),
            Tok::ProvK => String::from_str("`ProvK`"),
            Tok::Total => String::from_str("`Total`"),
            Tok::Partial => String::from_str("`Partial`"),
            Tok::Complete => String::from_str("`Complete`"),
            Tok::SoundOnly => String::from_str("`SoundOnly`"),
            Tok::Deterministic => String::from_str("`Deterministic`"),
            Tok::Stochastic => String::from_str("`Stochastic`"),
            Tok::QProb => String::from_str("`QProb`"),
            Tok::QGrad => String::from_str("`QGrad`"),
            Tok::Question => String::from_str("`Question`"),
            Tok::AtTerms => String::from_str("`AtTerms`"),
            Tok::AtAsp => String::from_str("`AtAsp`"),
            Tok::DoubleColon => String::from_str("`DoubleColon`"),
            Tok::Colon => String::from_str("`Colon`"),
            Tok::Comma => String::from_str("`Comma`"),
            Tok::LParen => String::from_str("`LParen`"),
            Tok::RParen => String::from_str("`RParen`"),
            Tok::Lt => String::from_str("`Lt`"),
            Tok::Gt => String::from_str("`Gt`"),
        }
    }
}

} // verus!
