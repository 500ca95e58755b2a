//! Normalizing choice and cardinality rules into normal rules and constraints.
//!
//! A choice `{a1; …; an} :- B` makes each `ai` independently in or out when `B`
//! holds, by the even loop `ai :- B, not ãi.  ãi :- B, not ai` over a fresh
//! complement `ãi` carrying `ai`'s arguments. Cardinality bounds
//! `l {g1; …; gn} u :- B` over ground choices add a sequential counter: fresh
//! 0-ary atoms `c(i,j)` ("at least `j` of `g1..gi` hold"), with the constraints
//! `:- B, not c(n,l)` and `:- B, c(n,u+1)`.
use vstd::prelude::*;
use crate::text::{dec, lemma_dec, push_decimal};
use crate::asp::program::{Atom, Literal, Rule, Term, AtomV, LitV, RuleV, aview, bview, rview, copy_atom_v, copy_body, copy_terms};

verus! {

/// Generates fresh auxiliary predicate names, unique within a normalization run.
pub struct FreshGen {
    next: usize,
}

/// The name generated from `stem` with counter `n`: `__` + stem + the numeral of `n`.
pub open spec fn fresh_name(stem: Seq<char>, n: nat) -> Seq<char> {
    seq!['_', '_'] + stem + dec(n)
}

impl FreshGen {
    /// How many names this generator has handed out.
    pub closed spec fn issued(&self) -> nat {
        self.next as nat
    }

    /// A generator that has handed out no name yet.
    pub fn new() -> (g: Self)
        ensures
            g.issued() == 0,
    {
        FreshGen { next: 0 }
    }

    /// The next fresh predicate name built on `stem`.
    pub fn pred(&mut self, stem: &str) -> (name: String)
        requires
            old(self).issued() < usize::MAX,
        ensures
            final(self).issued() == old(self).issued() + 1,
            name@ == fresh_name(stem@, old(self).issued()),
    {
        let n = self.next;
        self.next = self.next + 1;
        let mut s = String::from_str("__");
        s.append(stem);
        push_decimal(&mut s, n as u64);
        proof {
            reveal_strlit("__");
            assert(s@ =~= fresh_name(stem@, n as nat));
        }
        s
    }
}

/// Names built on one stem from different counters differ: the generator never
/// repeats a name for a stem within one run.
pub proof fn lemma_fresh_names_distinct(stem: Seq<char>, m: nat, n: nat)
    requires
        m != n,
    ensures
        fresh_name(stem, m) != fresh_name(stem, n),
{
    lemma_dec(m);
    lemma_dec(n);
    let p = seq!['_', '_'] + stem;
    if fresh_name(stem, m) == fresh_name(stem, n) {
        assert(dec(m) =~= fresh_name(stem, m).subrange(p.len() as int, fresh_name(stem, m).len() as int));
        assert(dec(n) =~= fresh_name(stem, n).subrange(p.len() as int, fresh_name(stem, n).len() as int));
    }
}

/// A choice or cardinality rule: `lower { choices } upper :- body`, the
/// bounds absent for a plain choice.
pub struct ChoiceRule {
    pub choices: Vec<Atom>,
    pub lower: Option<usize>,
    pub upper: Option<usize>,
    pub body: Vec<Literal>,
}

/// The rule has a cardinality bound.
pub open spec fn bounded(cr: ChoiceRule) -> bool {
    cr.lower is Some || cr.upper is Some
}

/// Every choice atom is ground.
pub open spec fn choices_ground(cr: ChoiceRule) -> bool {
    forall|i: int, k: int| 0 <= i < cr.choices@.len() && 0 <= k < cr.choices@[i].args@.len() ==>
        (#[trigger] cr.choices@[i].args@[k]) is Const || cr.choices@[i].args@[k] is Int
}

/// How far the counter counts: `max(upper + 1, lower)`.
pub open spec fn max_count(cr: ChoiceRule) -> nat {
    let a: nat = match cr.upper { Some(u) => (u + 1) as nat, None => 0 };
    let b: nat = match cr.lower { Some(l) => l as nat, None => 0 };
    if a >= b { a } else { b }
}

/// The name of counter atom `c(i,j)` under the counter's name `cid`.
pub open spec fn cname(cid: Seq<char>, i: nat, j: nat) -> Seq<char> {
    cid + seq!['_'] + dec(i) + seq!['_'] + dec(j)
}

/// The counter atom `c(i,j)`.
pub open spec fn catom(cid: Seq<char>, i: nat, j: nat) -> AtomV {
    (cname(cid, i, j), Seq::empty())
}

/// The two rules of choice `i`: `ai :- B, not ãi` and `ãi :- B, not ai`.
pub open spec fn choice_pair(cr: ChoiceRule, n0: nat, i: int) -> Seq<RuleV> {
    let a = aview(cr.choices@[i]);
    let comp: AtomV = (fresh_name("nc"@, (n0 + i) as nat), a.1);
    let b = bview(cr.body@);
    seq![(a, b.push((false, comp))), (comp, b.push((false, a)))]
}

/// The rules of the first `k` choices.
pub open spec fn choice_rules(cr: ChoiceRule, n0: nat, k: nat) -> Seq<RuleV>
    decreases k,
{
    if k == 0 { Seq::empty() } else { choice_rules(cr, n0, (k - 1) as nat) + choice_pair(cr, n0, k - 1) }
}

/// The counter rules for `c(i,j)`: the carry `c(i,j) :- c(i-1,j)` (for
/// `i > 1`) and the contribution `c(i,j) :- c(i-1,j-1), gi` (the first literal
/// only for `j > 1`; none for `i = 1 < j`).
pub open spec fn cell_rules(cr: ChoiceRule, cid: Seq<char>, i: nat, j: nat) -> Seq<RuleV> {
    let carry: Seq<RuleV> = if i > 1 {
        seq![(catom(cid, i, j), seq![(true, catom(cid, (i - 1) as nat, j))])]
    } else {
        Seq::empty()
    };
    let addition: Seq<RuleV> = if j > 1 && i == 1 {
        Seq::empty()
    } else {
        let first: Seq<LitV> = if j > 1 { seq![(true, catom(cid, (i - 1) as nat, (j - 1) as nat))] } else { Seq::empty() };
        seq![(catom(cid, i, j), first.push((true, aview(cr.choices@[i - 1]))))]
    };
    carry + addition
}

/// The counter rules of row `i`, for `j` up to `m`.
pub open spec fn row_rules(cr: ChoiceRule, cid: Seq<char>, i: nat, m: nat) -> Seq<RuleV>
    decreases m,
{
    if m == 0 { Seq::empty() } else { row_rules(cr, cid, i, (m - 1) as nat) + cell_rules(cr, cid, i, m) }
}

/// The counter rules of rows up to `i`.
pub open spec fn counter_rules(cr: ChoiceRule, cid: Seq<char>, i: nat, m: nat) -> Seq<RuleV>
    decreases i,
{
    if i == 0 { Seq::empty() } else { counter_rules(cr, cid, (i - 1) as nat, m) + row_rules(cr, cid, i, m) }
}

/// The bound constraints: `:- B, not c(n,l)` for a positive lower bound and
/// `:- B, c(n,u+1)` for an upper bound.
pub open spec fn bound_cons(cr: ChoiceRule, cid: Seq<char>) -> Seq<Seq<LitV>> {
    let n = cr.choices@.len();
    let b = bview(cr.body@);
    let lo: Seq<Seq<LitV>> = match cr.lower {
        Some(l) => if l > 0 { seq![b.push((false, catom(cid, n, l as nat)))] } else { Seq::empty() },
        None => Seq::empty(),
    };
    let hi: Seq<Seq<LitV>> = match cr.upper {
        Some(u) => seq![b.push((true, catom(cid, n, (u + 1) as nat)))],
        None => Seq::empty(),
    };
    lo + hi
}

/// The counter's name, drawn after the complements'.
pub open spec fn counter_name(cr: ChoiceRule, n0: nat) -> Seq<char> {
    fresh_name("c"@, n0 + cr.choices@.len())
}

/// The normal rules of the normalization.
pub open spec fn norm_rules(cr: ChoiceRule, n0: nat) -> Seq<RuleV> {
    choice_rules(cr, n0, cr.choices@.len())
        + if bounded(cr) { counter_rules(cr, counter_name(cr, n0), cr.choices@.len(), max_count(cr)) } else { Seq::empty() }
}

/// The constraints of the normalization.
pub open spec fn norm_cons(cr: ChoiceRule, n0: nat) -> Seq<Seq<LitV>> {
    if bounded(cr) { bound_cons(cr, counter_name(cr, n0)) } else { Seq::empty() }
}

/// The rules by content.
pub open spec fn rviews(rs: Seq<Rule>) -> Seq<RuleV> {
    rs.map_values(|r: Rule| rview(r))
}

/// The constraint bodies by content.
pub open spec fn cviews(cs: Seq<Vec<Literal>>) -> Seq<Seq<LitV>> {
    cs.map_values(|c: Vec<Literal>| bview(c@))
}

/// The counter atom `c(i,j)` named after `cid`.
fn cell(cid: &String, i: usize, j: usize) -> (a: Atom)
    ensures
        aview(a) == catom(cid@, i as nat, j as nat),
{
    let mut s = cid.clone();
    s.append("_");
    push_decimal(&mut s, i as u64);
    s.append("_");
    push_decimal(&mut s, j as u64);
    proof {
        reveal_strlit("_");
        assert(s@ =~= cname(cid@, i as nat, j as nat));
    }
    let a = Atom { pred: s, args: Vec::new() };
    assert(aview(a).1 =~= Seq::<crate::asp::program::TermV>::empty());
    a
}

/// Normalize one choice or cardinality rule into normal rules and constraints.
pub fn normalize(cr: &ChoiceRule, fresh: &mut FreshGen) -> (r: (Vec<Rule>, Vec<Vec<Literal>>))
    requires
        old(fresh).issued() + cr.choices@.len() + 1 < usize::MAX,
        bounded(*cr) ==> choices_ground(*cr),
        cr.upper matches Some(u) ==> u < usize::MAX,
    ensures
        rviews(r.0@) == norm_rules(*cr, old(fresh).issued()),
        cviews(r.1@) == norm_cons(*cr, old(fresh).issued()),
        final(fresh).issued() == old(fresh).issued() + cr.choices@.len() + if bounded(*cr) { 1nat } else { 0nat },
{
    let ghost n0 = fresh.issued();
    let ghost b = bview(cr.body@);
    let mut rules: Vec<Rule> = Vec::new();
    let mut constraints: Vec<Vec<Literal>> = Vec::new();
    let n = cr.choices.len();
    let mut i: usize = 0;
    while i < n
        invariant
            i <= n,
            n == cr.choices@.len(),
            n0 + n + 1 < usize::MAX,
            fresh.issued() == n0 + i,
            b == bview(cr.body@),
            rviews(rules@) == choice_rules(*cr, n0, i as nat),
        decreases n - i,
    {
        let ai = &cr.choices[i];
        let comp = Atom { pred: fresh.pred("nc"), args: copy_terms(&ai.args) };
        let mut b1 = copy_body(&cr.body);
        let c1 = copy_atom_v(&comp);
        b1.push(Literal::Neg(c1));
        let ghost r0 = rules@;
        let h1 = copy_atom_v(ai);
        let rule1 = Rule { head: h1, body: b1 };
        rules.push(rule1);
        let mut b2 = copy_body(&cr.body);
        b2.push(Literal::Neg(copy_atom_v(ai)));
        let rule2 = Rule { head: comp, body: b2 };
        rules.push(rule2);
        proof {
            let pair = choice_pair(*cr, n0, i as int);
            assert(rview(rule1) == pair[0]) by {
                assert(bview(rule1.body@) =~= b.push((false, aview(comp))));
            }
            assert(rview(rule2) == pair[1]) by {
                assert(bview(rule2.body@) =~= b.push((false, aview(*ai))));
            }
            assert(rviews(rules@) =~= rviews(r0).push(rview(rule1)).push(rview(rule2)));
            assert(choice_rules(*cr, n0, (i + 1) as nat) =~= choice_rules(*cr, n0, i as nat) + pair);
        }
        i = i + 1;
    }
    if cr.lower.is_some() || cr.upper.is_some() {
        let cid = fresh.pred("c");
        let a: usize = match cr.upper { Some(u) => u + 1, None => 0 };
        let l0: usize = match cr.lower { Some(l) => l, None => 0 };
        let maxj = if a >= l0 { a } else { l0 };
        let ghost base = rviews(rules@);
        let mut i: usize = 1;
        while i <= n
            invariant
                1 <= i <= n + 1,
                n == cr.choices@.len(),
                n < usize::MAX,
                cid@ == counter_name(*cr, n0),
                maxj == max_count(*cr),
                rviews(rules@) == base + counter_rules(*cr, cid@, (i - 1) as nat, maxj as nat),
            decreases n + 1 - i,
        {
            let gi = &cr.choices[i - 1];
            let ghost row0 = rviews(rules@);
            let mut j0: usize = 0;
            while j0 < maxj
                invariant
                    1 <= i <= n,
                    n == cr.choices@.len(),
                    *gi == cr.choices@[i - 1],
                    j0 <= maxj,
                    maxj == max_count(*cr),
                    rviews(rules@) == row0 + row_rules(*cr, cid@, i as nat, j0 as nat),
                decreases maxj - j0,
            {
                let j = j0 + 1;
                let ghost before = rviews(rules@);
                if i > 1 {
                    let carry = Rule { head: cell(&cid, i, j), body: vec![Literal::Pos(cell(&cid, i - 1, j))] };
                    rules.push(carry);
                    proof {
                        assert(bview(carry.body@) =~= seq![(true, catom(cid@, (i - 1) as nat, j as nat))]);
                    }
                }
                if !(j > 1 && i == 1) {
                    let mut body: Vec<Literal> = Vec::new();
                    if j > 1 {
                        body.push(Literal::Pos(cell(&cid, i - 1, j - 1)));
                    }
                    body.push(Literal::Pos(copy_atom_v(gi)));
                    let addition = Rule { head: cell(&cid, i, j), body };
                    rules.push(addition);
                    proof {
                        let first: Seq<LitV> = if j > 1 { seq![(true, catom(cid@, (i - 1) as nat, (j - 1) as nat))] } else { Seq::empty() };
                        assert(bview(addition.body@) =~= first.push((true, aview(cr.choices@[i - 1]))));
                    }
                }
                proof {
                    assert(rviews(rules@) =~= before + cell_rules(*cr, cid@, i as nat, j as nat));
                    assert(row_rules(*cr, cid@, i as nat, j as nat) == row_rules(*cr, cid@, i as nat, j0 as nat) + cell_rules(*cr, cid@, i as nat, j as nat));
                    assert(rviews(rules@) =~= row0 + row_rules(*cr, cid@, i as nat, j as nat));
                }
                j0 = j;
            }
            proof {
                assert(rviews(rules@) == row0 + row_rules(*cr, cid@, i as nat, maxj as nat));
                assert(rviews(rules@) =~= base + counter_rules(*cr, cid@, i as nat, maxj as nat));
            }
            i = i + 1;
        }
        if let Some(l) = cr.lower {
            if l > 0 {
                let mut con = copy_body(&cr.body);
                con.push(Literal::Neg(cell(&cid, n, l)));
                proof { assert(bview(con@) =~= b.push((false, catom(cid@, n as nat, l as nat)))); }
                constraints.push(con);
            }
        }
        if let Some(u) = cr.upper {
            let mut con = copy_body(&cr.body);
            con.push(Literal::Pos(cell(&cid, n, u + 1)));
            proof { assert(bview(con@) =~= b.push((true, catom(cid@, n as nat, (u + 1) as nat)))); }
            constraints.push(con);
        }
        proof {
            assert(cviews(constraints@) =~= bound_cons(*cr, cid@));
        }
    } else {
        proof {
            assert(cviews(constraints@) =~= Seq::<Seq<LitV>>::empty());
        }
    }
    proof {
        assert(rviews(rules@) =~= norm_rules(*cr, n0));
    }
    (rules, constraints)
}

} // verus!

verus! {

/// The complement atom `ãi` of choice `i`: a fresh predicate carrying `ai`'s
/// arguments.
pub open spec fn complement_atom(cr: ChoiceRule, n0: nat, i: int) -> AtomV {
    (fresh_name("nc"@, (n0 + i) as nat), aview(cr.choices@[i]).1)
}

proof fn lemma_choice_rules_layout(cr: ChoiceRule, n0: nat, k: nat)
    requires
        k <= cr.choices@.len(),
    ensures
        choice_rules(cr, n0, k).len() == 2 * k,
        forall|i: int| 0 <= i < k ==> #[trigger] choice_rules(cr, n0, k)[2 * i]
            == (aview(cr.choices@[i]), bview(cr.body@).push((false, complement_atom(cr, n0, i)))),
        forall|i: int| 0 <= i < k ==> #[trigger] choice_rules(cr, n0, k)[2 * i + 1]
            == (complement_atom(cr, n0, i), bview(cr.body@).push((false, aview(cr.choices@[i])))),
    decreases k,
{
    if k > 0 {
        lemma_choice_rules_layout(cr, n0, (k - 1) as nat);
        let prev = choice_rules(cr, n0, (k - 1) as nat);
        let pair = choice_pair(cr, n0, k - 1);
        assert(choice_rules(cr, n0, k) == prev + pair);
        assert forall|i: int| 0 <= i < k implies #[trigger] choice_rules(cr, n0, k)[2 * i]
            == (aview(cr.choices@[i]), bview(cr.body@).push((false, complement_atom(cr, n0, i)))) by {
            if i < k - 1 {
                assert(choice_rules(cr, n0, k)[2 * i] == prev[2 * i]);
            } else {
                assert(choice_rules(cr, n0, k)[2 * i] == pair[0]);
            }
        }
        assert forall|i: int| 0 <= i < k implies #[trigger] choice_rules(cr, n0, k)[2 * i + 1]
            == (complement_atom(cr, n0, i), bview(cr.body@).push((false, aview(cr.choices@[i])))) by {
            if i < k - 1 {
                assert(choice_rules(cr, n0, k)[2 * i + 1] == prev[2 * i + 1]);
            } else {
                assert(choice_rules(cr, n0, k)[2 * i + 1] == pair[1]);
            }
        }
    }
}

/// The layout of a normalization: for each choice `ai`, rule `2i` is
/// `ai :- B, not ãi` and rule `2i+1` is `ãi :- B, not ai`, where the
/// complements `ãi` carry `ai`'s arguments under fresh `__`-names that differ
/// from one another. A plain choice gives exactly these `2n` rules and no
/// constraint; a lower bound `l > 0` adds the constraint `:- B, not c(n,l)`
/// and an upper bound `u` the constraint `:- B, c(n,u+1)`, in that order.
pub proof fn lemma_normalize_layout(cr: ChoiceRule, n0: nat)
    ensures
        norm_rules(cr, n0).len() >= 2 * cr.choices@.len(),
        forall|i: int| 0 <= i < cr.choices@.len() ==> #[trigger] norm_rules(cr, n0)[2 * i]
            == (aview(cr.choices@[i]), bview(cr.body@).push((false, complement_atom(cr, n0, i)))),
        forall|i: int| 0 <= i < cr.choices@.len() ==> #[trigger] norm_rules(cr, n0)[2 * i + 1]
            == (complement_atom(cr, n0, i), bview(cr.body@).push((false, aview(cr.choices@[i])))),
        forall|i: int| 0 <= i < cr.choices@.len() ==> (#[trigger] complement_atom(cr, n0, i)).1 == aview(cr.choices@[i]).1
            && complement_atom(cr, n0, i).0.take(2) == seq!['_', '_'],
        forall|i: int, j: int| 0 <= i < j < cr.choices@.len() ==>
            (#[trigger] complement_atom(cr, n0, i)).0 != (#[trigger] complement_atom(cr, n0, j)).0,
        !bounded(cr) ==> norm_rules(cr, n0).len() == 2 * cr.choices@.len() && norm_cons(cr, n0).len() == 0,
        bounded(cr) ==> norm_cons(cr, n0).len()
            == (if cr.lower matches Some(l) && l > 0 { 1int } else { 0int }) + (if cr.upper is Some { 1int } else { 0int }),
        match cr.lower {
            Some(l) => l > 0 ==> norm_cons(cr, n0)[0]
                == bview(cr.body@).push((false, catom(counter_name(cr, n0), cr.choices@.len(), l as nat))),
            None => true,
        },
        match cr.upper {
            Some(u) => norm_cons(cr, n0)[norm_cons(cr, n0).len() - 1]
                == bview(cr.body@).push((true, catom(counter_name(cr, n0), cr.choices@.len(), (u + 1) as nat))),
            None => true,
        },
{
    let n = cr.choices@.len();
    lemma_choice_rules_layout(cr, n0, n);
    let cr_rules = choice_rules(cr, n0, n);
    let extra: Seq<RuleV> = if bounded(cr) { counter_rules(cr, counter_name(cr, n0), n, max_count(cr)) } else { Seq::empty() };
    assert(norm_rules(cr, n0) == cr_rules + extra);
    assert forall|i: int| 0 <= i < n implies #[trigger] norm_rules(cr, n0)[2 * i] == cr_rules[2 * i] by {}
    assert forall|i: int| 0 <= i < n implies #[trigger] norm_rules(cr, n0)[2 * i + 1] == cr_rules[2 * i + 1] by {}
    assert forall|i: int| 0 <= i < n implies (#[trigger] complement_atom(cr, n0, i)).1 == aview(cr.choices@[i]).1
        && complement_atom(cr, n0, i).0.take(2) == seq!['_', '_'] by {
        let name = fresh_name("nc"@, (n0 + i) as nat);
        assert(name.take(2) =~= seq!['_', '_']);
    }
    assert forall|i: int, j: int| 0 <= i < j < n implies
        (#[trigger] complement_atom(cr, n0, i)).0 != (#[trigger] complement_atom(cr, n0, j)).0 by {
        lemma_fresh_names_distinct("nc"@, (n0 + i) as nat, (n0 + j) as nat);
    }
}

} // verus!
