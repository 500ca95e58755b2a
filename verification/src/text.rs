//! Decimal rendering and parsing of integers, as the text formats need them.
use vstd::prelude::*;

verus! {

/// The character of decimal digit `d` (`d < 10`).
pub open spec fn digit_char(d: nat) -> char {
    if d == 0 { '0' } else if d == 1 { '1' } else if d == 2 { '2' } else if d == 3 { '3' }
    else if d == 4 { '4' } else if d == 5 { '5' } else if d == 6 { '6' } else if d == 7 { '7' }
    else if d == 8 { '8' } else { '9' }
}

/// `c` is one of `0`–`9`.
pub open spec fn is_digit(c: char) -> bool {
    '0' <= c && c <= '9'
}

/// The value of digit character `c`.
pub open spec fn digit_val(c: char) -> nat {
    (c as nat - '0' as nat) as nat
}

/// The decimal numeral of `n`: no sign, no leading zeros (`"0"` for zero).
pub open spec fn dec(n: nat) -> Seq<char>
    decreases n,
{
    if n < 10 { seq![digit_char(n)] } else { dec(n / 10).push(digit_char(n % 10)) }
}

/// The numeral of a signed integer: a `-` before the digits when negative.
pub open spec fn dec_int(x: int) -> Seq<char> {
    if x < 0 { seq!['-'] + dec((-x) as nat) } else { dec(x as nat) }
}

/// The value of a string of decimal digits.
pub open spec fn digits_value(s: Seq<char>) -> nat
    decreases s.len(),
{
    if s.len() == 0 { 0 } else { digits_value(s.drop_last()) * 10 + digit_val(s.last()) }
}

/// Every character is a decimal digit.
pub open spec fn all_digits(s: Seq<char>) -> bool {
    forall|i: int| 0 <= i < s.len() ==> is_digit(#[trigger] s[i])
}

/// How `usize`'s `from_str` reads `s`: an optional leading `+`, then one or
/// more decimal digits whose value fits in `usize`.
pub open spec fn parse_usize_spec(s: Seq<char>) -> Option<nat> {
    let ds = if s.len() > 0 && s[0] == '+' { s.drop_first() } else { s };
    if ds.len() > 0 && all_digits(ds) && digits_value(ds) <= usize::MAX {
        Some(digits_value(ds))
    } else {
        None
    }
}

pub proof fn lemma_dec(n: nat)
    ensures
        dec(n).len() >= 1,
        all_digits(dec(n)),
        digits_value(dec(n)) == n,
        dec(n)[0] != '+',
        dec(n)[0] != '-',
    decreases n,
{
    let d = n % 10;
    assert(digit_val(digit_char(d)) == d);
    assert(n == (n / 10) * 10 + d);
    if n < 10 {
        assert(dec(n).drop_last() =~= Seq::<char>::empty());
        assert(digits_value(dec(n)) == digits_value(Seq::<char>::empty()) * 10 + digit_val(digit_char(n)));
    }
    if n >= 10 {
        lemma_dec(n / 10);
        let s = dec(n);
        assert(s.drop_last() == dec(n / 10));
        assert(s.last() == digit_char(d));
        assert(digits_value(s) == digits_value(dec(n / 10)) * 10 + digit_val(digit_char(d)));
        assert forall|i: int| 0 <= i < s.len() implies is_digit(#[trigger] s[i]) by {
            if i < s.len() - 1 { assert(s[i] == dec(n / 10)[i]); }
        }
        assert(s[0] == dec(n / 10)[0]);
    }
}

fn digit_str(d: usize) -> (s: &'static str)
    requires
        d < 10,
    ensures
        s@ == seq![digit_char(d as nat)],
{
    proof {
        reveal_strlit("0"); reveal_strlit("1"); reveal_strlit("2"); reveal_strlit("3"); reveal_strlit("4");
        reveal_strlit("5"); reveal_strlit("6"); reveal_strlit("7"); reveal_strlit("8"); reveal_strlit("9");
    }
    if d == 0 { "0" } else if d == 1 { "1" } else if d == 2 { "2" } else if d == 3 { "3" }
    else if d == 4 { "4" } else if d == 5 { "5" } else if d == 6 { "6" } else if d == 7 { "7" }
    else if d == 8 { "8" } else { "9" }
}

/// Append the decimal numeral of `n` to `s`.
pub fn push_decimal(s: &mut String, n: u64)
    ensures
        final(s)@ == old(s)@ + dec(n as nat),
    decreases n,
{
    if n >= 10 {
        push_decimal(s, n / 10);
    }
    let d = (n % 10) as usize;
    s.append(digit_str(d));
    proof {
        if n >= 10 {
            assert(dec(n as nat) == dec((n / 10) as nat).push(digit_char((n % 10) as nat)));
        }
    }
}

/// Append the numeral of a signed integer to `s`.
pub fn push_int(s: &mut String, x: i64)
    ensures
        final(s)@ == old(s)@ + dec_int(x as int),
{
    if x < 0 {
        s.append("-");
        proof { reveal_strlit("-"); }
        let m: u64 = if x == i64::MIN { 9223372036854775808u64 } else { (-x) as u64 };
        push_decimal(s, m);
        assert(s@ =~= old(s)@ + dec_int(x as int));
    } else {
        push_decimal(s, x as u64);
    }
}

/// Read `s` as `usize`'s `from_str` does.
pub fn parse_usize(s: &str) -> (r: Option<usize>)
    ensures
        r matches Some(v) ==> parse_usize_spec(s@) == Some(v as nat),
        r is None ==> parse_usize_spec(s@) is None,
{
    let v = chars_of(s);
    assert(v@.subrange(0, v@.len() as int) =~= s@);
    parse_usize_chars(&v, 0)
}

/// The characters of `s`, in order.
pub fn chars_of(s: &str) -> (v: Vec<char>)
    ensures
        v@ == s@,
{
    broadcast use vstd::string::group_string_axioms;
    let mut v: Vec<char> = Vec::new();
    for c in it: s.chars()
        invariant
            it.seq() == s@,
            v@ == it.seq().take(it.index() as int),
    {
        v.push(c);
        assert(v@ =~= it.seq().take(it.index() as int + 1));
    }
    v
}

/// Read the characters of `s` from position `from` on as `usize`'s `from_str` does.
pub fn parse_usize_chars(s: &Vec<char>, from: usize) -> (r: Option<usize>)
    requires
        from <= s@.len(),
    ensures
        r matches Some(v) ==> parse_usize_spec(s@.subrange(from as int, s@.len() as int)) == Some(v as nat),
        r is None ==> parse_usize_spec(s@.subrange(from as int, s@.len() as int)) is None,
{
    let ghost t = s@.subrange(from as int, s@.len() as int);
    let n = s.len();
    let mut i: usize = from;
    if from < n && s[from] == '+' {
        i = from + 1;
    }
    let ghost ds = if t.len() > 0 && t[0] == '+' { t.drop_first() } else { t };
    assert(ds =~= s@.subrange(i as int, n as int));
    if i == n {
        return None;
    }
    let mut v: usize = 0;
    let start = i;
    while i < n
        invariant
            start <= i <= n,
            n == s@.len(),
            ds == s@.subrange(start as int, n as int),
            ds == (if t.len() > 0 && t[0] == '+' { t.drop_first() } else { t }),
            t == s@.subrange(from as int, n as int),
            all_digits(s@.subrange(start as int, i as int)),
            v == digits_value(s@.subrange(start as int, i as int)),
        decreases n - i,
    {
        let c = s[i];
        let ghost pre = s@.subrange(start as int, i as int);
        let ghost post = s@.subrange(start as int, i + 1);
        assert(post.drop_last() =~= pre);
        assert(post.last() == c);
        if !('0' <= c && c <= '9') {
            assert(ds[i - start] == c);
            assert(!is_digit(ds[i - start]));
            assert(!all_digits(ds));
            return None;
        }
        let d = (c as u32 - '0' as u32) as usize;
        if v > (usize::MAX - d) / 10 {
            proof {
                assert(digits_value(post) == v * 10 + d);
                assert(v * 10 + d > usize::MAX) by (nonlinear_arith)
                    requires v > (usize::MAX - d) / 10, d < 10;
                assert(ds.subrange(0, (i + 1 - start) as int) =~= post);
                if all_digits(ds) {
                    lemma_digits_prefix_le(ds, (i + 1 - start) as nat);
                }
            }
            return None;
        }
        assert(v * 10 + d <= usize::MAX) by (nonlinear_arith)
            requires v <= (usize::MAX - d) / 10, d < 10;
        v = v * 10 + d;
        proof {
            assert forall|k: int| 0 <= k < post.len() implies is_digit(#[trigger] post[k]) by {
                if k < pre.len() { assert(post[k] == pre[k]); }
            }
        }
        i = i + 1;
    }
    Some(v)
}

/// A prefix of a digit string is worth no more than the whole.
proof fn lemma_digits_prefix_le(s: Seq<char>, k: nat)
    requires
        k <= s.len(),
        all_digits(s),
    ensures
        digits_value(s.subrange(0, k as int)) <= digits_value(s),
    decreases s.len() - k,
{
    if k < s.len() {
        lemma_digits_prefix_le(s, k + 1);
        let a = s.subrange(0, k as int);
        let b = s.subrange(0, (k + 1) as int);
        assert(b.drop_last() =~= a);
        assert(digits_value(b) == digits_value(a) * 10 + digit_val(b.last()));
    } else {
        assert(s.subrange(0, k as int) =~= s);
    }
}

/// `s` begins with `p`.
pub open spec fn has_prefix(s: Seq<char>, p: Seq<char>) -> bool {
    p.len() <= s.len() && s.subrange(0, p.len() as int) == p
}

/// Whether `s` begins with `p`.
pub fn starts_with(s: &str, p: &str) -> (b: bool)
    ensures
        b == has_prefix(s@, p@),
{
    let n = s.unicode_len();
    let m = p.unicode_len();
    if m > n {
        return false;
    }
    let mut i: usize = 0;
    while i < m
        invariant
            m <= n,
            n == s@.len(),
            m == p@.len(),
            i <= m,
            forall|k: int| 0 <= k < i ==> s@[k] == p@[k],
        decreases m - i,
    {
        if s.get_char(i) != p.get_char(i) {
            assert(s@.subrange(0, m as int)[i as int] != p@[i as int]);
            return false;
        }
        i = i + 1;
    }
    assert(s@.subrange(0, m as int) =~= p@);
    true
}

/// Whether `a` and `b` hold the same characters.
pub fn same_text(a: &str, b: &str) -> (r: bool)
    ensures
        r == (a@ == b@),
{
    let n = a.unicode_len();
    if n != b.unicode_len() {
        return false;
    }
    let r = starts_with(a, b);
    assert(a@ =~= a@.subrange(0, n as int));
    r
}

/// `char::is_whitespace`: the characters with the Unicode `White_Space` property.
pub open spec fn is_ws(c: char) -> bool {
    ||| ('\u{9}' <= c && c <= '\u{d}')
    ||| c == ' '
    ||| c == '\u{85}'
    ||| c == '\u{a0}'
    ||| c == '\u{1680}'
    ||| ('\u{2000}' <= c && c <= '\u{200a}')
    ||| c == '\u{2028}'
    ||| c == '\u{2029}'
    ||| c == '\u{202f}'
    ||| c == '\u{205f}'
    ||| c == '\u{3000}'
}

/// Whether `c` is whitespace.
pub fn ws(c: char) -> (b: bool)
    ensures
        b == is_ws(c),
{
    ('\u{9}' <= c && c <= '\u{d}') || c == ' ' || c == '\u{85}' || c == '\u{a0}' || c == '\u{1680}'
        || ('\u{2000}' <= c && c <= '\u{200a}') || c == '\u{2028}' || c == '\u{2029}' || c == '\u{202f}'
        || c == '\u{205f}' || c == '\u{3000}'
}

/// `a` comes before `b` in code-point order (a proper prefix first).
pub open spec fn text_lt(a: Seq<char>, b: Seq<char>) -> bool
    decreases a.len(),
{
    if a.len() == 0 {
        b.len() > 0
    } else if b.len() == 0 {
        false
    } else if a[0] != b[0] {
        a[0] < b[0]
    } else {
        text_lt(a.drop_first(), b.drop_first())
    }
}

pub proof fn lemma_text_lt_irrefl(a: Seq<char>)
    ensures
        !text_lt(a, a),
    decreases a.len(),
{
    if a.len() > 0 {
        lemma_text_lt_irrefl(a.drop_first());
    }
}

pub proof fn lemma_text_lt_trans(a: Seq<char>, b: Seq<char>, c: Seq<char>)
    requires
        text_lt(a, b),
        text_lt(b, c),
    ensures
        text_lt(a, c),
    decreases a.len(),
{
    if a.len() > 0 && b.len() > 0 && c.len() > 0 && a[0] == b[0] && b[0] == c[0] {
        lemma_text_lt_trans(a.drop_first(), b.drop_first(), c.drop_first());
    }
}

pub proof fn lemma_text_lt_total(a: Seq<char>, b: Seq<char>)
    requires
        a != b,
    ensures
        text_lt(a, b) || text_lt(b, a),
    decreases a.len(),
{
    if a.len() > 0 && b.len() > 0 {
        if a[0] == b[0] {
            if a.drop_first() == b.drop_first() {
                assert(a =~= seq![a[0]] + a.drop_first());
                assert(b =~= seq![b[0]] + b.drop_first());
            }
            lemma_text_lt_total(a.drop_first(), b.drop_first());
        }
    } else if a.len() == 0 && b.len() == 0 {
        assert(a =~= b);
    }
}

proof fn lemma_text_lt_skip(a: Seq<char>, b: Seq<char>, i: nat)
    requires
        i <= a.len(),
        i <= b.len(),
        a.take(i as int) == b.take(i as int),
    ensures
        text_lt(a, b) == text_lt(a.skip(i as int), b.skip(i as int)),
    decreases i,
{
    if i > 0 {
        assert(a[0] == a.take(i as int)[0]);
        assert(b[0] == b.take(i as int)[0]);
        assert(a.len() > 0 && b.len() > 0 && a[0] == b[0]);
        assert(text_lt(a, b) == text_lt(a.drop_first(), b.drop_first()));
        assert(a.drop_first().take(i - 1) =~= a.take(i as int).drop_first());
        assert(b.drop_first().take(i - 1) =~= b.take(i as int).drop_first());
        lemma_text_lt_skip(a.drop_first(), b.drop_first(), (i - 1) as nat);
        assert(a.drop_first().skip(i - 1) =~= a.skip(i as int));
        assert(b.drop_first().skip(i - 1) =~= b.skip(i as int));
    } else {
        assert(a.skip(0) =~= a);
        assert(b.skip(0) =~= b);
    }
}

/// Whether `a` comes before `b` in code-point order.
pub fn text_less(a: &str, b: &str) -> (r: bool)
    ensures
        r == text_lt(a@, b@),
{
    let va = chars_of(a);
    let vb = chars_of(b);
    let mut i: usize = 0;
    while i < va.len() && i < vb.len() && va[i] == vb[i]
        invariant
            i <= va@.len(),
            i <= vb@.len(),
            va@.take(i as int) == vb@.take(i as int),
        decreases va@.len() - i,
    {
        assert(va@.take(i + 1) =~= va@.take(i as int).push(va@[i as int]));
        assert(vb@.take(i + 1) =~= vb@.take(i as int).push(vb@[i as int]));
        i = i + 1;
    }
    proof {
        lemma_text_lt_skip(va@, vb@, i as nat);
    }
    let ghost sa = va@.skip(i as int);
    let ghost sb = vb@.skip(i as int);
    if i == va.len() {
        assert(sa.len() == 0);
        i < vb.len()
    } else if i == vb.len() {
        false
    } else {
        assert(sa[0] == va@[i as int] && sb[0] == vb@[i as int]);
        va[i] < vb[i]
    }
}

} // verus!
