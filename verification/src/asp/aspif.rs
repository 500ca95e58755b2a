//! aspif emission — the clasp-compatible intermediate format.
//!
//! aspif atoms are 1-based positive integers, so interned id `k` becomes atom
//! `k + 1`. A positive body literal is `+atom`, a negative one is `-atom`.
//! Every atom is emitted with an output (`show`) statement named `s<id>` so
//! the solver echoes a readable model that maps back to ground atoms.
use vstd::prelude::*;
use crate::asp::{GRule, Ground, rules_in};
use crate::text::{dec, dec_int, lemma_dec, parse_usize, parse_usize_spec, push_decimal, push_int};

verus! {

/// The show-symbol of atom `id`: `s` and the decimal id.
pub open spec fn show_name_spec(id: nat) -> Seq<char> {
    seq!['s'] + dec(id)
}

/// How a show-symbol reads back: `s`, then a `usize` numeral.
pub open spec fn parse_show_name_spec(s: Seq<char>) -> Option<nat> {
    if s.len() > 0 && s[0] == 's' { parse_usize_spec(s.drop_first()) } else { None }
}

/// The show-symbol for interned atom `id` (round-trips via [`parse_show_name`]).
pub fn show_name(id: usize) -> (s: String)
    ensures
        s@ == show_name_spec(id as nat),
{
    let mut s = String::from_str("s");
    proof { reveal_strlit("s"); }
    push_decimal(&mut s, id as u64);
    s
}

/// Inverse of [`show_name`]: `"s7"` → `Some(7)`.
pub fn parse_show_name(s: &str) -> (r: Option<usize>)
    ensures
        r matches Some(v) ==> parse_show_name_spec(s@) == Some(v as nat),
        r is None ==> parse_show_name_spec(s@) is None,
{
    let n = s.unicode_len();
    if n == 0 || s.get_char(0) != 's' {
        return None;
    }
    let rest = s.substring_char(1, n);
    assert(rest@ =~= s@.drop_first());
    parse_usize(rest)
}

/// Reading a show-symbol back gives the id it was made from.
pub proof fn lemma_show_name_roundtrip(id: nat)
    requires
        id <= usize::MAX,
    ensures
        parse_show_name_spec(show_name_spec(id)) == Some(id),
{
    lemma_dec(id);
    let s = show_name_spec(id);
    assert(s.drop_first() =~= dec(id));
}

/// aspif literal of an atom id: `id + 1`, negated for a negative literal.
pub open spec fn lit_spec(id: nat, positive: bool) -> int {
    if positive { id as int + 1 } else { -(id as int + 1) }
}

/// aspif literal for a positive/negative interned atom id (1-based, signed).
fn lit(id: usize, positive: bool) -> (l: i64)
    requires
        id < i64::MAX,
    ensures
        l == lit_spec(id as nat, positive),
{
    let a = id as i64 + 1;
    if positive { a } else { -a }
}

/// The body literals of a rule: positive ones, then negative ones.
pub open spec fn body_lits(r: GRule) -> Seq<int> {
    r.pos@.map_values(|p: usize| lit_spec(p as nat, true)) + r.neg@.map_values(|q: usize| lit_spec(q as nat, false))
}

/// ` l₁ l₂ …`: each number after a space.
pub open spec fn spaced(ls: Seq<int>) -> Seq<char>
    decreases ls.len(),
{
    if ls.len() == 0 { Seq::empty() } else { spaced(ls.drop_last()) + seq![' '] + dec_int(ls.last()) }
}

/// The aspif line of a rule: `1 0 1 <head> 0 <n> <lits>` for a normal rule,
/// `1 0 0 0 <n> <lits>` for a constraint.
pub open spec fn rule_line(r: GRule) -> Seq<char> {
    let b = body_lits(r);
    let start = match r.head {
        Some(h) => seq!['1', ' ', '0', ' ', '1', ' '] + dec(h as nat + 1) + seq![' ', '0', ' '] + dec(b.len()),
        None => seq!['1', ' ', '0', ' ', '0', ' ', '0', ' '] + dec(b.len()),
    };
    start + spaced(b) + seq!['\n']
}

/// A sequence of aspif body literals reads back as the given positive and
/// negative atoms: first each positive atom as its id plus one, then each
/// negative atom as minus its id plus one.
pub open spec fn reads_back(ls: Seq<int>, pos: Seq<usize>, neg: Seq<usize>) -> bool {
    &&& ls.len() == pos.len() + neg.len()
    &&& forall|i: int| 0 <= i < pos.len() ==> #[trigger] ls[i] > 0 && ls[i] - 1 == pos[i]
    &&& forall|j: int| 0 <= j < neg.len() ==> #[trigger] ls[pos.len() + j] < 0 && -ls[pos.len() + j] - 1 == neg[j]
}

/// A line: a prefix, then the numbers, each after a space, then a newline.
pub open spec fn line_of(pre: Seq<char>, ls: Seq<int>) -> Seq<char> {
    pre + spaced(ls) + seq!['\n']
}

/// The aspif line of a rule keeps each body literal's polarity and atom: its
/// body is a sequence of numbers that reads back as the rule's positive atoms
/// (positive numbers) and negative atoms (negative numbers), so `not b` is
/// never written as `b`.
pub proof fn lemma_rule_line_keeps_polarity(r: GRule)
    ensures
        exists|pre: Seq<char>, ls: Seq<int>| #![trigger reads_back(ls, r.pos@, r.neg@), line_of(pre, ls)]
            rule_line(r) == line_of(pre, ls) && reads_back(ls, r.pos@, r.neg@),
{
    let b = body_lits(r);
    let start = match r.head {
        Some(h) => seq!['1', ' ', '0', ' ', '1', ' '] + dec(h as nat + 1) + seq![' ', '0', ' '] + dec(b.len()),
        None => seq!['1', ' ', '0', ' ', '0', ' ', '0', ' '] + dec(b.len()),
    };
    assert(rule_line(r) == start + spaced(b) + seq!['\n']);
    let np = r.pos@.len() as int;
    assert forall|j: int| 0 <= j < r.neg@.len() implies #[trigger] b[np + j] < 0 && -b[np + j] - 1 == r.neg@[j] by {
        assert(b[np + j] == lit_spec(r.neg@[j] as nat, false));
    }
    assert forall|i: int| 0 <= i < np implies #[trigger] b[i] > 0 && b[i] - 1 == r.pos@[i] by {
        assert(b[i] == lit_spec(r.pos@[i] as nat, true));
    }
    assert(reads_back(b, r.pos@, r.neg@));
    assert(rule_line(r) == line_of(start, b));
}

pub open spec fn rules_text(rules: Seq<GRule>) -> Seq<char>
    decreases rules.len(),
{
    if rules.len() == 0 { Seq::empty() } else { rules_text(rules.drop_last()) + rule_line(rules.last()) }
}

/// The output statement of atom `id`: `4 <len> s<id> 1 <id+1>`.
pub open spec fn show_line(id: nat) -> Seq<char> {
    let name = show_name_spec(id);
    seq!['4', ' '] + dec(name.len()) + seq![' '] + name + seq![' ', '1', ' '] + dec(id + 1) + seq!['\n']
}

pub open spec fn shows_text(n: nat) -> Seq<char>
    decreases n,
{
    if n == 0 { Seq::empty() } else { shows_text((n - 1) as nat) + show_line((n - 1) as nat) }
}

/// The aspif document of a ground program.
pub open spec fn aspif_text(g: Ground) -> Seq<char> {
    seq!['a', 's', 'p', ' ', '1', ' ', '0', ' ', '0', '\n'] + rules_text(g.rules@) + shows_text(g.atoms@.len())
        + seq!['0', '\n']
}

fn push_str(s: &mut String, t: &str)
    ensures
        final(s)@ == old(s)@ + t@,
{
    s.append(t);
}

/// Encode a grounded normal program as an aspif text document.
pub fn to_aspif(g: &Ground) -> (s: String)
    requires
        rules_in(g.rules@, i64::MAX as nat),
        g.atoms@.len() < i64::MAX,
    ensures
        s@ == aspif_text(*g),
{
    let mut s = String::from_str("asp 1 0 0\n");
    proof { reveal_strlit("asp 1 0 0\n"); }
    let ghost head = s@;
    let mut i: usize = 0;
    while i < g.rules.len()
        invariant
            i <= g.rules@.len(),
            rules_in(g.rules@, i64::MAX as nat),
            g.atoms@.len() < i64::MAX,
            head == seq!['a', 's', 'p', ' ', '1', ' ', '0', ' ', '0', '\n'],
            s@ == head + rules_text(g.rules@.take(i as int)),
        decreases g.rules@.len() - i,
    {
        let r = &g.rules[i];
        assert(*r == g.rules@[i as int]);
        let mut body: Vec<i64> = Vec::new();
        let mut k: usize = 0;
        while k < r.pos.len()
            invariant
                k <= r.pos@.len(),
                *r == g.rules@[i as int],
                i < g.rules@.len(),
                rules_in(g.rules@, i64::MAX as nat),
                g.atoms@.len() < i64::MAX,
                body@.map_values(|x: i64| x as int) == r.pos@.take(k as int).map_values(|p: usize| lit_spec(p as nat, true)),
            decreases r.pos@.len() - k,
        {
            assert(r.pos@[k as int] < i64::MAX);
            let ghost b0 = body@;
            body.push(lit(r.pos[k], true));
            proof {
                assert(body@.map_values(|x: i64| x as int) =~= b0.map_values(|x: i64| x as int).push(lit_spec(r.pos@[k as int] as nat, true)));
                assert(r.pos@.take(k + 1) =~= r.pos@.take(k as int).push(r.pos@[k as int]));
                assert(r.pos@.take(k + 1).map_values(|p: usize| lit_spec(p as nat, true)) =~= r.pos@.take(k as int).map_values(|p: usize| lit_spec(p as nat, true)).push(lit_spec(r.pos@[k as int] as nat, true)));
            }
            k = k + 1;
        }
        assert(r.pos@.take(r.pos@.len() as int) =~= r.pos@);
        let ghost bpos = body@.map_values(|x: i64| x as int);
        let mut k: usize = 0;
        while k < r.neg.len()
            invariant
                k <= r.neg@.len(),
                *r == g.rules@[i as int],
                i < g.rules@.len(),
                rules_in(g.rules@, i64::MAX as nat),
                g.atoms@.len() < i64::MAX,
                body@.map_values(|x: i64| x as int) == bpos + r.neg@.take(k as int).map_values(|q: usize| lit_spec(q as nat, false)),
            decreases r.neg@.len() - k,
        {
            assert(r.neg@[k as int] < i64::MAX);
            let ghost b0 = body@;
            body.push(lit(r.neg[k], false));
            proof {
                assert(body@.map_values(|x: i64| x as int) =~= b0.map_values(|x: i64| x as int).push(lit_spec(r.neg@[k as int] as nat, false)));
                assert(r.neg@.take(k + 1) =~= r.neg@.take(k as int).push(r.neg@[k as int]));
                assert(r.neg@.take(k + 1).map_values(|q: usize| lit_spec(q as nat, false)) =~= r.neg@.take(k as int).map_values(|q: usize| lit_spec(q as nat, false)).push(lit_spec(r.neg@[k as int] as nat, false)));
            }
            k = k + 1;
        }
        assert(r.neg@.take(r.neg@.len() as int) =~= r.neg@);
        let ghost b = body@.map_values(|x: i64| x as int);
        assert(b == body_lits(*r));
        let ghost before = s@;
        match r.head {
            Some(h) => {
                assert(h < i64::MAX);
                push_str(&mut s, "1 0 1 ");
                push_decimal(&mut s, h as u64 + 1);
                push_str(&mut s, " 0 ");
                push_decimal(&mut s, body.len() as u64);
                proof { reveal_strlit("1 0 1 "); reveal_strlit(" 0 "); }
            },
            None => {
                push_str(&mut s, "1 0 0 0 ");
                push_decimal(&mut s, body.len() as u64);
                proof { reveal_strlit("1 0 0 0 "); }
            },
        }
        let ghost mid = s@;
        let mut k: usize = 0;
        while k < body.len()
            invariant
                k <= body@.len(),
                b == body@.map_values(|x: i64| x as int),
                s@ == mid + spaced(b.take(k as int)),
            decreases body@.len() - k,
        {
            push_str(&mut s, " ");
            proof { reveal_strlit(" "); }
            push_int(&mut s, body[k]);
            proof {
                assert(b.take(k + 1).drop_last() =~= b.take(k as int));
                assert(b.take(k + 1).last() == body@[k as int] as int);
                assert(s@ =~= mid + spaced(b.take(k + 1)));
            }
            k = k + 1;
        }
        assert(b.take(b.len() as int) =~= b);
        push_str(&mut s, "\n");
        proof {
            reveal_strlit("\n");
            assert(g.rules@.take(i + 1).drop_last() =~= g.rules@.take(i as int));
            assert(g.rules@.take(i + 1).last() == *r);
            assert(s@ =~= before + rule_line(*r));
        }
        i = i + 1;
    }
    assert(g.rules@.take(g.rules@.len() as int) =~= g.rules@);
    let ghost after_rules = s@;
    let n = g.atoms.len();
    let mut id: usize = 0;
    while id < n
        invariant
            id <= n,
            n == g.atoms@.len(),
            n < i64::MAX,
            s@ == after_rules + shows_text(id as nat),
        decreases n - id,
    {
        let name = show_name(id);
        let ghost before = s@;
        push_str(&mut s, "4 ");
        let len = name.as_str().unicode_len();
        push_decimal(&mut s, len as u64);
        push_str(&mut s, " ");
        push_str(&mut s, name.as_str());
        push_str(&mut s, " 1 ");
        push_decimal(&mut s, (id + 1) as u64);
        push_str(&mut s, "\n");
        proof {
            reveal_strlit("4 "); reveal_strlit(" "); reveal_strlit(" 1 "); reveal_strlit("\n");
            assert(s@ =~= before + show_line(id as nat));
        }
        id = id + 1;
    }
    push_str(&mut s, "0\n");
    proof { reveal_strlit("0\n"); }
    s
}

} // verus!
