//! Naive grounding: every rule and constraint is instantiated, for every
//! assignment of its variables to the constants of the program (its Herbrand
//! universe), into ground rules over interned atom ids.
use vstd::prelude::*;
use crate::asp::{GroundAtom, Val, GRule, Ground, AspError, ground_wf};
use crate::asp::order::{ord_val, ord_val_fn, is_order, lemma_orders, compare_val};
use crate::asp::program::{Term, Atom, Literal, Rule, ValKey, AtomKey, vkey, vkeys, akey, ord_vk, lit_atom, lemma_ord_val_key};

verus! {

/// The constant a term names, by content.
pub open spec fn term_key(t: Term) -> Option<ValKey> {
    match t {
        Term::Const { name } => Some((true, name@, 0int)),
        Term::Int { value } => Some((false, Seq::empty(), value as int)),
        _ => None,
    }
}

/// The atom mentions constant `k`.
pub open spec fn atom_mentions(a: Atom, k: ValKey) -> bool {
    exists|i: int| 0 <= i < a.args@.len() && term_key(#[trigger] a.args@[i]) == Some(k)
}

/// Some literal of the body mentions constant `k`.
pub open spec fn body_mentions(b: Seq<Literal>, k: ValKey) -> bool {
    exists|l: int| 0 <= l < b.len() && atom_mentions(lit_atom(#[trigger] b[l]), k)
}

/// The rule mentions constant `k`.
pub open spec fn rule_mentions(r: Rule, k: ValKey) -> bool {
    atom_mentions(r.head, k) || body_mentions(r.body@, k)
}

/// The fact has `k` among its values.
pub open spec fn fact_mentions(f: GroundAtom, k: ValKey) -> bool {
    vkeys(f.1@).contains(k)
}

/// `k` is a constant of the program.
pub open spec fn program_const(rules: Seq<Rule>, facts: Seq<GroundAtom>, cons: Seq<Vec<Literal>>, k: ValKey) -> bool {
    ||| exists|i: int| 0 <= i < facts.len() && fact_mentions(#[trigger] facts[i], k)
    ||| exists|i: int| 0 <= i < rules.len() && rule_mentions(#[trigger] rules[i], k)
    ||| exists|i: int| 0 <= i < cons.len() && body_mentions((#[trigger] cons[i])@, k)
}

/// `u` is the Herbrand universe: the program's constants, ascending.
pub open spec fn universe_ok(u: Seq<ValKey>, rules: Seq<Rule>, facts: Seq<GroundAtom>, cons: Seq<Vec<Literal>>) -> bool {
    &&& forall|i: int, j: int| 0 <= i < j < u.len() ==> ord_vk(u[i], u[j]) < 0
    &&& forall|k: ValKey| #[trigger] u.contains(k) <==> program_const(rules, facts, cons, k)
}

/// Strictly ascending values.
pub open spec fn vals_ascending(u: Seq<Val>) -> bool {
    forall|i: int, j: int| 0 <= i < j < u.len() ==> ord_val(u[i], u[j]) < 0
}

proof fn lemma_vkeys_contains(u: Seq<Val>, k: ValKey)
    ensures
        vkeys(u).contains(k) <==> exists|i: int| 0 <= i < u.len() && vkey(#[trigger] u[i]) == k,
{
    if vkeys(u).contains(k) {
        let i = choose|i: int| 0 <= i < vkeys(u).len() && vkeys(u)[i] == k;
        assert(vkey(u[i]) == k);
    }
    if exists|i: int| 0 <= i < u.len() && vkey(#[trigger] u[i]) == k {
        let i = choose|i: int| 0 <= i < u.len() && vkey(#[trigger] u[i]) == k;
        assert(vkeys(u)[i] == k);
    }
}

/// Insert `x` into a strictly ascending list of values unless a value equal
/// to it is there.
fn insert_val(u: &mut Vec<Val>, x: Val)
    requires
        vals_ascending(old(u)@),
    ensures
        vals_ascending(final(u)@),
        forall|k: ValKey| #[trigger] vkeys(final(u)@).contains(k) <==> (vkeys(old(u)@).contains(k) || k == vkey(x)),
{
    proof { lemma_orders(); }
    let ghost f = ord_val_fn();
    let mut i: usize = 0;
    while i < u.len() && compare_val(&u[i], &x) < 0
        invariant
            i <= u@.len(),
            forall|q: int| 0 <= q < i ==> ord_val(u@[q], x) < 0,
        decreases u@.len() - i,
    {
        i = i + 1;
    }
    let ghost old_u = u@;
    if i < u.len() && compare_val(&u[i], &x) == 0 {
        proof {
            lemma_ord_val_key(u@[i as int], x);
            assert forall|k: ValKey| #[trigger] vkeys(u@).contains(k) <==> (vkeys(old_u).contains(k) || k == vkey(x)) by {
                if k == vkey(x) {
                    assert(vkeys(u@)[i as int] == k);
                }
            }
        }
        return;
    }
    u.insert(i, x);
    proof {
        assert forall|a: int, b: int| 0 <= a < b < u@.len() implies ord_val(u@[a], u@[b]) < 0 by {
            assert(f(u@[a], u@[b]) == ord_val(u@[a], u@[b]));
            if a < i && b > i {
                assert(u@[b] == old_u[b - 1]);
                assert(u@[a] == old_u[a]);
                assert(f(old_u[a], x) < 0);
                assert(f(x, old_u[i as int]) > 0 || f(x, old_u[i as int]) < 0) by {
                    assert(f(old_u[i as int], x) > 0);
                    assert(f(x, old_u[i as int]) == -f(old_u[i as int], x));
                }
                assert(f(x, old_u[i as int]) < 0);
                if b - 1 > i {
                    assert(f(old_u[i as int], old_u[b - 1]) < 0);
                }
                assert(f(x, old_u[b - 1]) < 0) by {
                    if f(x, old_u[b - 1]) == 0 {
                        assert(f(x, old_u[i as int]) == f(old_u[b - 1], old_u[i as int]));
                        assert(f(old_u[b - 1], old_u[i as int]) == -f(old_u[i as int], old_u[b - 1]));
                    }
                }
                if f(old_u[a], old_u[b - 1]) == 0 {
                    assert(f(old_u[a], x) == f(old_u[b - 1], x));
                    assert(f(old_u[b - 1], x) == -f(x, old_u[b - 1]));
                }
            } else if a > i {
                assert(u@[a] == old_u[a - 1]);
                assert(u@[b] == old_u[b - 1]);
            } else if a == i && b > i {
                assert(u@[b] == old_u[b - 1]);
                assert(f(old_u[i as int], x) > 0);
                assert(f(x, old_u[i as int]) == -f(old_u[i as int], x));
                if b - 1 > i {
                    assert(f(old_u[i as int], old_u[b - 1]) < 0);
                    if f(x, old_u[b - 1]) == 0 {
                        assert(f(x, old_u[i as int]) == f(old_u[b - 1], old_u[i as int]));
                        assert(f(old_u[b - 1], old_u[i as int]) == -f(old_u[i as int], old_u[b - 1]));
                    }
                }
            } else {
                assert(u@[a] == old_u[a]);
                if b < i {
                    assert(u@[b] == old_u[b]);
                } else {
                    assert(u@[b] == x);
                }
            }
        }
        assert forall|k: ValKey| #[trigger] vkeys(u@).contains(k) <==> (vkeys(old_u).contains(k) || k == vkey(x)) by {
            lemma_vkeys_contains(u@, k);
            lemma_vkeys_contains(old_u, k);
            if vkeys(u@).contains(k) {
                let q = choose|q: int| 0 <= q < u@.len() && vkey(#[trigger] u@[q]) == k;
                if q < i { assert(u@[q] == old_u[q]); } else if q > i { assert(u@[q] == old_u[q - 1]); }
            }
            if vkeys(old_u).contains(k) {
                let q = choose|q: int| 0 <= q < old_u.len() && vkey(#[trigger] old_u[q]) == k;
                if q < i { assert(u@[q] == old_u[q]); } else { assert(u@[q + 1] == old_u[q]); }
            }
            if k == vkey(x) {
                assert(u@[i as int] == x);
            }
        }
    }
}

/// Add the constants of an atom.
fn add_atom_consts(u: &mut Vec<Val>, a: &Atom)
    requires
        vals_ascending(old(u)@),
    ensures
        vals_ascending(final(u)@),
        forall|k: ValKey| #[trigger] vkeys(final(u)@).contains(k) <==> (vkeys(old(u)@).contains(k) || atom_mentions(*a, k)),
{
    let ghost u0 = u@;
    let mut i: usize = 0;
    while i < a.args.len()
        invariant
            i <= a.args@.len(),
            vals_ascending(u@),
            forall|k: ValKey| #[trigger] vkeys(u@).contains(k) <==> (vkeys(u0).contains(k)
                || exists|j: int| 0 <= j < i && term_key(#[trigger] a.args@[j]) == Some(k)),
        decreases a.args@.len() - i,
    {
        let ghost u1 = u@;
        match &a.args[i] {
            Term::Const { name } => insert_val(u, Val::Sym(name.clone())),
            Term::Int { value } => insert_val(u, Val::Int(*value)),
            _ => {},
        }
        proof {
            assert forall|k: ValKey| #[trigger] vkeys(u@).contains(k) <==> (vkeys(u0).contains(k)
                || exists|j: int| 0 <= j < i + 1 && term_key(#[trigger] a.args@[j]) == Some(k)) by {
                if exists|j: int| 0 <= j < i + 1 && term_key(#[trigger] a.args@[j]) == Some(k) {
                    let j = choose|j: int| 0 <= j < i + 1 && term_key(#[trigger] a.args@[j]) == Some(k);
                    if j < i {
                        assert(vkeys(u1).contains(k));
                    }
                }
                if vkeys(u1).contains(k) && !vkeys(u0).contains(k) {
                    let j = choose|j: int| 0 <= j < i && term_key(#[trigger] a.args@[j]) == Some(k);
                    assert(0 <= j < i + 1);
                }
            }
        }
        i = i + 1;
    }
}

/// Add the constants of a body.
fn add_body_consts(u: &mut Vec<Val>, b: &Vec<Literal>)
    requires
        vals_ascending(old(u)@),
    ensures
        vals_ascending(final(u)@),
        forall|k: ValKey| #[trigger] vkeys(final(u)@).contains(k) <==> (vkeys(old(u)@).contains(k) || body_mentions(b@, k)),
{
    let ghost u0 = u@;
    let mut i: usize = 0;
    while i < b.len()
        invariant
            i <= b@.len(),
            vals_ascending(u@),
            forall|k: ValKey| #[trigger] vkeys(u@).contains(k) <==> (vkeys(u0).contains(k) || body_mentions(b@.take(i as int), k)),
        decreases b@.len() - i,
    {
        let ghost u1 = u@;
        let a = match &b[i] {
            Literal::Pos(a) => a,
            Literal::Neg(a) => a,
        };
        assert(*a == lit_atom(b@[i as int]));
        add_atom_consts(u, a);
        proof {
            assert forall|k: ValKey| #[trigger] vkeys(u@).contains(k) <==> (vkeys(u0).contains(k) || body_mentions(b@.take(i + 1), k)) by {
                let t0 = b@.take(i as int);
                let t1 = b@.take(i + 1);
                if body_mentions(t1, k) {
                    let l = choose|l: int| 0 <= l < t1.len() && atom_mentions(lit_atom(#[trigger] t1[l]), k);
                    if l < i {
                        assert(t0[l] == t1[l]);
                    } else {
                        assert(t1[l] == b@[i as int]);
                    }
                }
                if body_mentions(t0, k) {
                    let l = choose|l: int| 0 <= l < t0.len() && atom_mentions(lit_atom(#[trigger] t0[l]), k);
                    assert(t0[l] == t1[l]);
                }
                if atom_mentions(*a, k) {
                    assert(t1[i as int] == b@[i as int]);
                }
            }
        }
        i = i + 1;
    }
    assert(b@.take(i as int) =~= b@);
}

/// The program's constants, ascending: its Herbrand universe.
fn universe(rules: &[Rule], facts: &[GroundAtom], cons: &[Vec<Literal>]) -> (u: Vec<Val>)
    ensures
        vals_ascending(u@),
        universe_ok(vkeys(u@), rules@, facts@, cons@),
{
    let mut u: Vec<Val> = Vec::new();
    let mut i: usize = 0;
    while i < facts.len()
        invariant
            i <= facts@.len(),
            vals_ascending(u@),
            forall|k: ValKey| #[trigger] vkeys(u@).contains(k) <==> exists|f: int| 0 <= f < i && fact_mentions(#[trigger] facts@[f], k),
        decreases facts@.len() - i,
    {
        let ghost u1 = u@;
        let vs = &facts[i].1;
        let mut j: usize = 0;
        while j < vs.len()
            invariant
                i < facts@.len(),
                *vs == facts@[i as int].1,
                j <= vs@.len(),
                vals_ascending(u@),
                forall|k: ValKey| #[trigger] vkeys(u@).contains(k) <==> (vkeys(u1).contains(k) || vkeys(vs@.take(j as int)).contains(k)),
            decreases vs@.len() - j,
        {
            let ghost u2 = u@;
            insert_val(&mut u, crate::asp::copy_val(&vs[j]));
            proof {
                let s0 = vkeys(vs@.take(j as int));
                let x = vkey(vs@[j as int]);
                assert(vkeys(vs@.take(j + 1)) =~= s0.push(x));
                assert forall|k: ValKey| #[trigger] s0.push(x).contains(k) <==> (s0.contains(k) || k == x) by {
                    if s0.push(x).contains(k) {
                        let q = choose|q: int| 0 <= q < s0.push(x).len() && s0.push(x)[q] == k;
                        if q < s0.len() { assert(s0[q] == k); }
                    }
                    if s0.contains(k) {
                        let q = choose|q: int| 0 <= q < s0.len() && s0[q] == k;
                        assert(s0.push(x)[q] == k);
                    }
                    if k == x { assert(s0.push(x)[s0.len() as int] == k); }
                }
            }
            j = j + 1;
        }
        proof {
            assert(vs@.take(j as int) =~= vs@);
            assert forall|k: ValKey| #[trigger] vkeys(u@).contains(k) <==> exists|f: int| 0 <= f < i + 1 && fact_mentions(#[trigger] facts@[f], k) by {
                if exists|f: int| 0 <= f < i + 1 && fact_mentions(#[trigger] facts@[f], k) {
                    let f = choose|f: int| 0 <= f < i + 1 && fact_mentions(#[trigger] facts@[f], k);
                    if f < i { assert(vkeys(u1).contains(k)); }
                }
            }
        }
        i = i + 1;
    }
    let ghost uf = u@;
    let mut i: usize = 0;
    while i < rules.len()
        invariant
            i <= rules@.len(),
            vals_ascending(u@),
            forall|k: ValKey| #[trigger] vkeys(u@).contains(k) <==> (vkeys(uf).contains(k) || exists|r: int| 0 <= r < i && rule_mentions(#[trigger] rules@[r], k)),
        decreases rules@.len() - i,
    {
        let ghost u1 = u@;
        add_atom_consts(&mut u, &rules[i].head);
        add_body_consts(&mut u, &rules[i].body);
        proof {
            assert forall|k: ValKey| #[trigger] vkeys(u@).contains(k) <==> (vkeys(uf).contains(k) || exists|r: int| 0 <= r < i + 1 && rule_mentions(#[trigger] rules@[r], k)) by {
                if exists|r: int| 0 <= r < i + 1 && rule_mentions(#[trigger] rules@[r], k) {
                    let r = choose|r: int| 0 <= r < i + 1 && rule_mentions(#[trigger] rules@[r], k);
                    if r < i { assert(vkeys(u1).contains(k)); }
                }
                if rule_mentions(rules@[i as int], k) {
                    assert(0 <= i < i + 1);
                }
            }
        }
        i = i + 1;
    }
    let ghost ur = u@;
    let mut i: usize = 0;
    while i < cons.len()
        invariant
            i <= cons@.len(),
            vals_ascending(u@),
            forall|k: ValKey| #[trigger] vkeys(u@).contains(k) <==> (vkeys(ur).contains(k) || exists|c: int| 0 <= c < i && body_mentions((#[trigger] cons@[c])@, k)),
        decreases cons@.len() - i,
    {
        let ghost u1 = u@;
        add_body_consts(&mut u, &cons[i]);
        proof {
            assert forall|k: ValKey| #[trigger] vkeys(u@).contains(k) <==> (vkeys(ur).contains(k) || exists|c: int| 0 <= c < i + 1 && body_mentions((#[trigger] cons@[c])@, k)) by {
                if exists|c: int| 0 <= c < i + 1 && body_mentions((#[trigger] cons@[c])@, k) {
                    let c = choose|c: int| 0 <= c < i + 1 && body_mentions((#[trigger] cons@[c])@, k);
                    if c < i { assert(vkeys(u1).contains(k)); }
                }
                if body_mentions(cons@[i as int]@, k) {
                    assert(0 <= i < i + 1);
                }
            }
        }
        i = i + 1;
    }
    proof {
        assert forall|a: int, b: int| 0 <= a < b < vkeys(u@).len() implies ord_vk(vkeys(u@)[a], vkeys(u@)[b]) < 0 by {
            lemma_ord_val_key(u@[a], u@[b]);
        }
    }
    u
}

// ---------------------------------------------------------------------------
// Rule variables.

/// The variable a term names, as a symbol key.
pub open spec fn term_var(t: Term) -> Option<ValKey> {
    match t {
        Term::Var { name } => Some((true, name@, 0int)),
        _ => None,
    }
}

/// The atom has variable `x`.
pub open spec fn atom_has_var(a: Atom, x: ValKey) -> bool {
    exists|i: int| 0 <= i < a.args@.len() && term_var(#[trigger] a.args@[i]) == Some(x)
}

/// Some literal of the body has variable `x`.
pub open spec fn body_has_var(b: Seq<Literal>, x: ValKey) -> bool {
    exists|l: int| 0 <= l < b.len() && atom_has_var(lit_atom(#[trigger] b[l]), x)
}

/// `vs` are the variables of `head :- body` (as symbol keys), ascending.
pub open spec fn vars_ok(vs: Seq<ValKey>, head: Option<Atom>, body: Seq<Literal>) -> bool {
    &&& forall|i: int, j: int| 0 <= i < j < vs.len() ==> ord_vk(vs[i], vs[j]) < 0
    &&& forall|x: ValKey| #[trigger] vs.contains(x) <==> ((head matches Some(h) && atom_has_var(h, x)) || body_has_var(body, x))
}

/// Add the variables of an atom.
fn add_atom_vars(vs: &mut Vec<Val>, a: &Atom)
    requires
        vals_ascending(old(vs)@),
    ensures
        vals_ascending(final(vs)@),
        forall|k: ValKey| #[trigger] vkeys(final(vs)@).contains(k) <==> (vkeys(old(vs)@).contains(k) || atom_has_var(*a, k)),
{
    let ghost u0 = vs@;
    let mut i: usize = 0;
    while i < a.args.len()
        invariant
            i <= a.args@.len(),
            vals_ascending(vs@),
            forall|k: ValKey| #[trigger] vkeys(vs@).contains(k) <==> (vkeys(u0).contains(k)
                || exists|j: int| 0 <= j < i && term_var(#[trigger] a.args@[j]) == Some(k)),
        decreases a.args@.len() - i,
    {
        let ghost u1 = vs@;
        match &a.args[i] {
            Term::Var { name } => insert_val(vs, Val::Sym(name.clone())),
            _ => {},
        }
        proof {
            assert forall|k: ValKey| #[trigger] vkeys(vs@).contains(k) <==> (vkeys(u0).contains(k)
                || exists|j: int| 0 <= j < i + 1 && term_var(#[trigger] a.args@[j]) == Some(k)) by {
                if exists|j: int| 0 <= j < i + 1 && term_var(#[trigger] a.args@[j]) == Some(k) {
                    let j = choose|j: int| 0 <= j < i + 1 && term_var(#[trigger] a.args@[j]) == Some(k);
                    if j < i {
                        assert(vkeys(u1).contains(k));
                    }
                }
                if vkeys(u1).contains(k) && !vkeys(u0).contains(k) {
                    let j = choose|j: int| 0 <= j < i && term_var(#[trigger] a.args@[j]) == Some(k);
                    assert(0 <= j < i + 1);
                }
            }
        }
        i = i + 1;
    }
}

/// The variables of `head :- body`, ascending by name, each as a symbol.
fn rule_vars(head: Option<&Atom>, body: &Vec<Literal>) -> (vs: Vec<Val>)
    ensures
        vals_ascending(vs@),
        vars_ok(vkeys(vs@), match head { Some(h) => Some(*h), None => None }, body@),
        forall|i: int| 0 <= i < vs@.len() ==> (#[trigger] vs@[i]) is Sym,
{
    let mut vs: Vec<Val> = Vec::new();
    if let Some(h) = head {
        add_atom_vars(&mut vs, h);
    }
    let ghost v0 = vs@;
    let mut i: usize = 0;
    while i < body.len()
        invariant
            i <= body@.len(),
            vals_ascending(vs@),
            forall|k: ValKey| #[trigger] vkeys(vs@).contains(k) <==> (vkeys(v0).contains(k) || body_has_var(body@.take(i as int), k)),
        decreases body@.len() - i,
    {
        let a = match &body[i] {
            Literal::Pos(a) => a,
            Literal::Neg(a) => a,
        };
        assert(*a == lit_atom(body@[i as int]));
        add_atom_vars(&mut vs, a);
        proof {
            assert forall|k: ValKey| #[trigger] vkeys(vs@).contains(k) <==> (vkeys(v0).contains(k) || body_has_var(body@.take(i + 1), k)) by {
                let t0 = body@.take(i as int);
                let t1 = body@.take(i + 1);
                if body_has_var(t1, k) {
                    let l = choose|l: int| 0 <= l < t1.len() && atom_has_var(lit_atom(#[trigger] t1[l]), k);
                    if l < i { assert(t0[l] == t1[l]); } else { assert(t1[l] == body@[i as int]); }
                }
                if body_has_var(t0, k) {
                    let l = choose|l: int| 0 <= l < t0.len() && atom_has_var(lit_atom(#[trigger] t0[l]), k);
                    assert(t0[l] == t1[l]);
                }
                if atom_has_var(*a, k) {
                    assert(t1[i as int] == body@[i as int]);
                }
            }
        }
        i = i + 1;
    }
    proof {
        assert(body@.take(i as int) =~= body@);
        assert forall|a: int, b: int| 0 <= a < b < vkeys(vs@).len() implies ord_vk(vkeys(vs@)[a], vkeys(vs@)[b]) < 0 by {
            lemma_ord_val_key(vs@[a], vs@[b]);
        }
        assert forall|i: int| 0 <= i < vs@.len() implies (#[trigger] vs@[i]) is Sym by {
            assert(vkeys(vs@).contains(vkey(vs@[i]))) by { assert(vkeys(vs@)[i] == vkey(vs@[i])); }
        }
    }
    vs
}

// ---------------------------------------------------------------------------
// Instances.

/// A literal of a ground rule by content: positive or not, and its atom.
pub type LitKey = (bool, AtomKey);

/// A ground rule by content: its head (none for a constraint) and its body
/// literals in order.
pub type RuleKey = (Option<AtomKey>, Seq<LitKey>);

/// The value of a term under the assignment `a` of values to the variables `vs`.
pub open spec fn inst_term(t: Term, vs: Seq<ValKey>, a: Seq<ValKey>) -> ValKey {
    match t {
        Term::Var { name } => a[vs.index_of((true, name@, 0int))],
        Term::Const { name } => (true, name@, 0int),
        Term::Int { value } => (false, Seq::empty(), value as int),
        _ => (false, Seq::empty(), 0),
    }
}

/// An atom under an assignment.
pub open spec fn inst_atom(x: Atom, vs: Seq<ValKey>, a: Seq<ValKey>) -> AtomKey {
    (x.pred@, x.args@.map_values(|t: Term| inst_term(t, vs, a)))
}

/// A literal under an assignment.
pub open spec fn inst_lit(l: Literal, vs: Seq<ValKey>, a: Seq<ValKey>) -> LitKey {
    match l {
        Literal::Pos(x) => (true, inst_atom(x, vs, a)),
        Literal::Neg(x) => (false, inst_atom(x, vs, a)),
    }
}

/// `head :- body` under an assignment.
pub open spec fn inst_rule(head: Option<Atom>, body: Seq<Literal>, vs: Seq<ValKey>, a: Seq<ValKey>) -> RuleKey {
    (
        match head { Some(h) => Some(inst_atom(h, vs, a)), None => None },
        body.map_values(|l: Literal| inst_lit(l, vs, a)),
    )
}

/// The terms are all variables, constants or integers.
pub open spec fn terms_plain(ts: Seq<Term>) -> bool {
    forall|i: int| 0 <= i < ts.len() ==> !((#[trigger] ts[i]) is Agg) && !(ts[i] is Compound)
}

/// The first aggregate or compound term of `ts`: 1 for an aggregate, 2 for a
/// compound term, 0 if none.
pub open spec fn first_unplain(ts: Seq<Term>) -> int
    decreases ts.len(),
{
    if ts.len() == 0 {
        0
    } else if ts[0] is Agg {
        1
    } else if ts[0] is Compound {
        2
    } else {
        first_unplain(ts.drop_first())
    }
}

/// The first aggregate or compound term of a body, as `first_unplain`.
pub open spec fn body_unplain(b: Seq<Literal>) -> int
    decreases b.len(),
{
    if b.len() == 0 {
        0
    } else {
        let c = first_unplain(lit_atom(b[0]).args@);
        if c != 0 { c } else { body_unplain(b.drop_first()) }
    }
}

/// The first aggregate or compound term of `head :- body`, head first.
pub open spec fn rule_unplain(head: Option<Atom>, body: Seq<Literal>) -> int {
    let c = match head { Some(h) => first_unplain(h.args@), None => 0 };
    if c != 0 { c } else { body_unplain(body) }
}

proof fn lemma_first_unplain(ts: Seq<Term>)
    ensures
        (first_unplain(ts) == 0) == terms_plain(ts),
        first_unplain(ts) == 0 || first_unplain(ts) == 1 || first_unplain(ts) == 2,
    decreases ts.len(),
{
    if ts.len() > 0 {
        let r = ts.drop_first();
        lemma_first_unplain(r);
        if ts[0] is Agg || ts[0] is Compound {
            assert(!terms_plain(ts));
        } else {
            if terms_plain(r) {
                assert forall|i: int| 0 <= i < ts.len() implies !((#[trigger] ts[i]) is Agg) && !(ts[i] is Compound) by {
                    if i > 0 {
                        assert(ts[i] == r[i - 1]);
                    }
                }
            }
            if terms_plain(ts) {
                assert forall|i: int| 0 <= i < r.len() implies !((#[trigger] r[i]) is Agg) && !(r[i] is Compound) by {
                    assert(ts[i + 1] == r[i]);
                }
            }
        }
    }
}

/// The value list's position of a variable.
fn var_pos(vs: &Vec<Val>, name: &String) -> (p: usize)
    requires
        vkeys(vs@).contains((true, name@, 0int)),
        vkeys(vs@).no_duplicates(),
    ensures
        p < vs@.len(),
        vkeys(vs@).index_of((true, name@, 0int)) == p,
        vkey(vs@[p as int]) == (true, name@, 0int),
{
    let ghost k = (true, name@, 0int);
    let mut i: usize = 0;
    while i < vs.len()
        invariant
            i <= vs@.len(),
            k == (true, name@, 0int),
            vkeys(vs@).contains(k),
            vkeys(vs@).no_duplicates(),
            forall|q: int| 0 <= q < i ==> vkey(#[trigger] vs@[q]) != k,
        decreases vs@.len() - i,
    {
        let same = match &vs[i] {
            Val::Sym(t) => {
                let c = crate::asp::order::compare_str(t, name);
                proof { crate::asp::program::lemma_ord_str_eq(t@, name@); }
                c == 0
            },
            Val::Int(_) => false,
        };
        if same {
            proof {
                assert(vkey(vs@[i as int]) == k);
                let j = vkeys(vs@).index_of(k);
                assert(vkeys(vs@)[j] == k);
                assert(vkeys(vs@)[i as int] == vkey(vs@[i as int]));
            }
            return i;
        }
        i = i + 1;
    }
    proof {
        let j = choose|j: int| 0 <= j < vkeys(vs@).len() && vkeys(vs@)[j] == k;
        assert(vkey(vs@[j]) == k);
    }
    0
}

/// The ground atom of `x` under the assignment `a` of values to the variables `vs`.
fn ground_atom(x: &Atom, vs: &Vec<Val>, a: &Vec<Val>) -> (r: GroundAtom)
    requires
        vs@.len() == a@.len(),
        vkeys(vs@).no_duplicates(),
        terms_plain(x.args@),
        forall|k: ValKey| atom_has_var(*x, k) ==> vkeys(vs@).contains(k),
    ensures
        akey(r) == inst_atom(*x, vkeys(vs@), vkeys(a@)),
{
    let mut args: Vec<Val> = Vec::new();
    let mut i: usize = 0;
    while i < x.args.len()
        invariant
            i <= x.args@.len(),
            vs@.len() == a@.len(),
            vkeys(vs@).no_duplicates(),
            terms_plain(x.args@),
            forall|k: ValKey| atom_has_var(*x, k) ==> vkeys(vs@).contains(k),
            vkeys(args@) == x.args@.take(i as int).map_values(|t: Term| inst_term(t, vkeys(vs@), vkeys(a@))),
        decreases x.args@.len() - i,
    {
        let v = match &x.args[i] {
            Term::Var { name } => {
                proof {
                    assert(term_var(x.args@[i as int]) == Some((true, name@, 0int)));
                    assert(atom_has_var(*x, (true, name@, 0int)));
                }
                let p = var_pos(vs, name);
                crate::asp::copy_val(&a[p])
            },
            Term::Const { name } => Val::Sym(name.clone()),
            Term::Int { value } => Val::Int(*value),
            _ => {
                proof { assert(!(x.args@[i as int] is Agg) && !(x.args@[i as int] is Compound)); }
                Val::Int(0)
            },
        };
        let ghost a0 = args@;
        args.push(v);
        proof {
            let f = |t: Term| inst_term(t, vkeys(vs@), vkeys(a@));
            assert(x.args@.take(i + 1) =~= x.args@.take(i as int).push(x.args@[i as int]));
            assert(vkeys(args@) =~= vkeys(a0).push(vkey(v)));
            assert(vkey(v) == f(x.args@[i as int]));
        }
        i = i + 1;
    }
    assert(x.args@.take(i as int) =~= x.args@);
    (x.pred.clone(), args)
}

// ---------------------------------------------------------------------------
// Interning.

/// The keys of `s`, each once, in order of first occurrence.
pub open spec fn dedup_keys(s: Seq<AtomKey>) -> Seq<AtomKey>
    decreases s.len(),
{
    if s.len() == 0 {
        Seq::empty()
    } else {
        let d = dedup_keys(s.drop_last());
        if d.contains(s.last()) { d } else { d.push(s.last()) }
    }
}

/// The content keys of an atom table.
pub open spec fn akeys(atoms: Seq<GroundAtom>) -> Seq<AtomKey> {
    atoms.map_values(|a: GroundAtom| akey(a))
}

proof fn lemma_dedup_keys(s: Seq<AtomKey>)
    ensures
        dedup_keys(s).no_duplicates(),
        forall|k: AtomKey| dedup_keys(s).contains(k) <==> s.contains(k),
    decreases s.len(),
{
    if s.len() > 0 {
        let p = s.drop_last();
        lemma_dedup_keys(p);
        let d = dedup_keys(p);
        assert forall|k: AtomKey| s.contains(k) <==> (p.contains(k) || k == s.last()) by {
            if s.contains(k) {
                let i = choose|i: int| 0 <= i < s.len() && s[i] == k;
                if i < s.len() - 1 { assert(p[i] == k); }
            }
            if p.contains(k) {
                let i = choose|i: int| 0 <= i < p.len() && p[i] == k;
                assert(s[i] == k);
            }
            if k == s.last() { assert(s[s.len() - 1] == k); }
        }
        if !d.contains(s.last()) {
            let e = d.push(s.last());
            assert forall|a: int, b: int| 0 <= a < e.len() && 0 <= b < e.len() && a != b implies e[a] != e[b] by {
                if a == d.len() { assert(d.contains(e[b])); }
                if b == d.len() { assert(d.contains(e[a])); }
            }
            assert forall|k: AtomKey| e.contains(k) <==> (d.contains(k) || k == s.last()) by {
                if e.contains(k) {
                    let i = choose|i: int| 0 <= i < e.len() && e[i] == k;
                    if i < d.len() { assert(d[i] == k); }
                }
                if d.contains(k) {
                    let i = choose|i: int| 0 <= i < d.len() && d[i] == k;
                    assert(e[i] == k);
                }
                if k == s.last() { assert(e[d.len() as int] == k); }
            }
        }
    }
}

/// Value lists compare equal exactly when their keys are equal.
proof fn lemma_lex_vals_key(xs: Seq<Val>, ys: Seq<Val>)
    ensures
        (crate::asp::order::lex(xs, ys, ord_val_fn()) == 0) == (vkeys(xs) == vkeys(ys)),
    decreases xs.len(),
{
    if xs.len() > 0 && ys.len() > 0 {
        lemma_lex_vals_key(xs.drop_first(), ys.drop_first());
        lemma_ord_val_key(xs[0], ys[0]);
        assert(vkeys(xs) =~= seq![vkey(xs[0])] + vkeys(xs.drop_first()));
        assert(vkeys(ys) =~= seq![vkey(ys[0])] + vkeys(ys.drop_first()));
        if vkeys(xs) == vkeys(ys) {
            assert(vkeys(xs)[0] == vkeys(ys)[0]);
            assert(vkeys(xs.drop_first()) =~= vkeys(xs).drop_first());
            assert(vkeys(ys.drop_first()) =~= vkeys(ys).drop_first());
        }
    } else if xs.len() == 0 && ys.len() == 0 {
        assert(vkeys(xs) =~= vkeys(ys));
    } else {
        assert(vkeys(xs).len() != vkeys(ys).len());
    }
}

/// Atoms compare equal exactly when their keys are equal.
proof fn lemma_atom_key(a: GroundAtom, b: GroundAtom)
    ensures
        (crate::asp::order::ord_atom(crate::asp::order::av(a), crate::asp::order::av(b)) == 0) == (akey(a) == akey(b)),
{
    crate::asp::program::lemma_ord_str_eq(a.0@, b.0@);
    lemma_lex_vals_key(a.1@, b.1@);
}

/// The id of atom `a` in the table, added at the end if it is new.
fn intern(atoms: &mut Vec<GroundAtom>, a: GroundAtom, Ghost(m): Ghost<Seq<AtomKey>>) -> (id: usize)
    requires
        akeys(old(atoms)@) == dedup_keys(m),
    ensures
        akeys(final(atoms)@) == dedup_keys(m.push(akey(a))),
        id < final(atoms)@.len(),
        akey(final(atoms)@[id as int]) == akey(a),
        old(atoms)@.len() <= final(atoms)@.len(),
        forall|j: int| 0 <= j < old(atoms)@.len() ==> #[trigger] final(atoms)@[j] == old(atoms)@[j],
{
    proof {
        lemma_dedup_keys(m);
        assert(m.push(akey(a)).drop_last() =~= m);
    }
    let mut i: usize = 0;
    while i < atoms.len()
        invariant
            i <= atoms@.len(),
            atoms@ == old(atoms)@,
            akeys(atoms@) == dedup_keys(m),
            forall|q: int| 0 <= q < i ==> akey(#[trigger] atoms@[q]) != akey(a),
        decreases atoms@.len() - i,
    {
        let c = crate::asp::order::compare_atom(&atoms[i], &a);
        proof { lemma_atom_key(atoms@[i as int], a); }
        if c == 0 {
            proof {
                assert(akeys(atoms@)[i as int] == akey(a));
                assert(dedup_keys(m).contains(akey(a)));
                assert(m.push(akey(a)).drop_last() =~= m);
                assert(m.push(akey(a)).last() == akey(a));
            }
            return i;
        }
        i = i + 1;
    }
    proof {
        if dedup_keys(m).contains(akey(a)) {
            let q = choose|q: int| 0 <= q < dedup_keys(m).len() && dedup_keys(m)[q] == akey(a);
            assert(akeys(atoms@)[q] == akey(atoms@[q]));
        }
    }
    let ghost a0 = atoms@;
    let ghost ka = akey(a);
    atoms.push(a);
    proof {
        assert(akeys(atoms@) =~= akeys(a0).push(ka));
    }
    i
}

// ---------------------------------------------------------------------------
// Emitting ground rules.

/// The atoms of the positive literals, in order.
pub open spec fn pos_keys(ls: Seq<LitKey>) -> Seq<AtomKey>
    decreases ls.len(),
{
    if ls.len() == 0 {
        Seq::empty()
    } else {
        pos_keys(ls.drop_last()) + if ls.last().0 { seq![ls.last().1] } else { Seq::empty() }
    }
}

/// The atoms of the negative literals, in order.
pub open spec fn neg_keys(ls: Seq<LitKey>) -> Seq<AtomKey>
    decreases ls.len(),
{
    if ls.len() == 0 {
        Seq::empty()
    } else {
        neg_keys(ls.drop_last()) + if !ls.last().0 { seq![ls.last().1] } else { Seq::empty() }
    }
}

/// The atoms a ground rule mentions, head first, then its body in order.
pub open spec fn mentions(rk: RuleKey) -> Seq<AtomKey> {
    (match rk.0 { Some(h) => seq![h], None => Seq::empty() }) + rk.1.map_values(|l: LitKey| l.1)
}

/// The atoms the ground rules mention, in order.
pub open spec fn all_mentions(rks: Seq<RuleKey>) -> Seq<AtomKey>
    decreases rks.len(),
{
    if rks.len() == 0 { Seq::empty() } else { all_mentions(rks.drop_last()) + mentions(rks.last()) }
}

/// The keys of the atoms with ids `ids`.
pub open spec fn ids_keys(ids: Seq<usize>, atoms: Seq<GroundAtom>) -> Seq<AtomKey> {
    ids.map_values(|id: usize| akey(atoms[id as int]))
}

/// Every id is in the table.
pub open spec fn ids_in(ids: Seq<usize>, n: nat) -> bool {
    forall|k: int| 0 <= k < ids.len() ==> #[trigger] ids[k] < n
}

/// The ground rule `r`, read through the atom table, is `rk`.
pub open spec fn grule_is(r: GRule, atoms: Seq<GroundAtom>, rk: RuleKey) -> bool {
    &&& match r.head { Some(h) => h < atoms.len() && rk.0 == Some(akey(atoms[h as int])), None => rk.0 is None }
    &&& ids_in(r.pos@, atoms.len())
    &&& ids_in(r.neg@, atoms.len())
    &&& ids_keys(r.pos@, atoms) == pos_keys(rk.1)
    &&& ids_keys(r.neg@, atoms) == neg_keys(rk.1)
}

/// The ground rules are `em`, and the table holds the atoms they mention,
/// each once, in order of first mention.
pub open spec fn emitted_ok(rules: Seq<GRule>, atoms: Seq<GroundAtom>, em: Seq<RuleKey>) -> bool {
    &&& akeys(atoms) == dedup_keys(all_mentions(em))
    &&& rules.len() == em.len()
    &&& forall|k: int| 0 <= k < rules.len() ==> grule_is(#[trigger] rules[k], atoms, em[k])
}

/// A longer table reads old ids the same.
proof fn lemma_grule_extend(r: GRule, a1: Seq<GroundAtom>, a2: Seq<GroundAtom>, rk: RuleKey)
    requires
        grule_is(r, a1, rk),
        a1.len() <= a2.len(),
        forall|j: int| 0 <= j < a1.len() ==> #[trigger] a2[j] == a1[j],
    ensures
        grule_is(r, a2, rk),
{
    assert(ids_keys(r.pos@, a2) =~= ids_keys(r.pos@, a1)) by {
        assert forall|k: int| 0 <= k < r.pos@.len() implies ids_keys(r.pos@, a2)[k] == ids_keys(r.pos@, a1)[k] by {
            assert(r.pos@[k] < a1.len());
        }
    }
    assert(ids_keys(r.neg@, a2) =~= ids_keys(r.neg@, a1)) by {
        assert forall|k: int| 0 <= k < r.neg@.len() implies ids_keys(r.neg@, a2)[k] == ids_keys(r.neg@, a1)[k] by {
            assert(r.neg@[k] < a1.len());
        }
    }
}

/// Emit the instance of `head :- body` under the assignment `a` of values to
/// the variables `vs`.
fn emit_instance(
    head: Option<&Atom>,
    body: &Vec<Literal>,
    vs: &Vec<Val>,
    a: &Vec<Val>,
    atoms: &mut Vec<GroundAtom>,
    out: &mut Vec<GRule>,
    Ghost(em): Ghost<Seq<RuleKey>>,
)
    requires
        emitted_ok(old(out)@, old(atoms)@, em),
        vs@.len() == a@.len(),
        vkeys(vs@).no_duplicates(),
        match head { Some(h) => terms_plain(h.args@), None => true },
        forall|l: int| 0 <= l < body@.len() ==> terms_plain(lit_atom(#[trigger] body@[l]).args@),
        forall|k: ValKey| #![trigger vkeys(vs@).contains(k)] ((match head { Some(h) => Some(*h), None => None }) matches Some(h) && atom_has_var(h, k)) || body_has_var(body@, k) ==> vkeys(vs@).contains(k),
    ensures
        emitted_ok(final(out)@, final(atoms)@, em.push(inst_rule(match head { Some(h) => Some(*h), None => None }, body@, vkeys(vs@), vkeys(a@)))),
        old(atoms)@.len() <= final(atoms)@.len(),
        forall|j: int| 0 <= j < old(atoms)@.len() ==> #[trigger] final(atoms)@[j] == old(atoms)@[j],
{
    let ghost hs = match head { Some(h) => Some(*h), None => None };
    let ghost vk = vkeys(vs@);
    let ghost ak = vkeys(a@);
    let ghost rk = inst_rule(hs, body@, vk, ak);
    let ghost m0 = all_mentions(em);
    let ghost a0 = atoms@;
    let ghost out0 = out@;
    let ghost mut m = m0;
    let hid: Option<usize> = match head {
        Some(h) => {
            proof {
                assert forall|k: ValKey| atom_has_var(*h, k) implies vkeys(vs@).contains(k) by {
                    assert(hs == Some(*h));
                    assert((hs matches Some(h2) && atom_has_var(h2, k)) || body_has_var(body@, k));
                }
            }
            let g = ground_atom(h, vs, a);
            let id = intern(atoms, g, Ghost(m));
            proof { m = m.push(akey(g)); }
            Some(id)
        },
        None => None,
    };
    let ghost hm: Seq<AtomKey> = match rk.0 { Some(x) => seq![x], None => Seq::empty() };
    proof {
        assert(m == m0 + hm);
        assert(hid matches Some(id) ==> id < atoms@.len() && rk.0 == Some(akey(atoms@[id as int])));
    }
    let mut pos: Vec<usize> = Vec::new();
    let mut neg: Vec<usize> = Vec::new();
    let mut j: usize = 0;
    while j < body.len()
        invariant
            j <= body@.len(),
            vs@.len() == a@.len(),
            vkeys(vs@).no_duplicates(),
            vk == vkeys(vs@),
            ak == vkeys(a@),
            rk == inst_rule(hs, body@, vk, ak),
            forall|l: int| 0 <= l < body@.len() ==> terms_plain(lit_atom(#[trigger] body@[l]).args@),
            forall|k: ValKey| (hs matches Some(h) && atom_has_var(h, k)) || body_has_var(body@, k) ==> vkeys(vs@).contains(k),
            akeys(atoms@) == dedup_keys(m),
            m == m0 + hm + rk.1.take(j as int).map_values(|l: LitKey| l.1),
            a0.len() <= atoms@.len(),
            forall|q: int| 0 <= q < a0.len() ==> #[trigger] atoms@[q] == a0[q],
            hid matches Some(id) ==> id < atoms@.len() && rk.0 == Some(akey(atoms@[id as int])),
            ids_in(pos@, atoms@.len()),
            ids_in(neg@, atoms@.len()),
            ids_keys(pos@, atoms@) == pos_keys(rk.1.take(j as int)),
            ids_keys(neg@, atoms@) == neg_keys(rk.1.take(j as int)),
        decreases body@.len() - j,
    {
        let ghost at0 = atoms@;
        let (positive, x) = match &body[j] {
            Literal::Pos(x) => (true, x),
            Literal::Neg(x) => (false, x),
        };
        proof {
            assert(*x == lit_atom(body@[j as int]));
            assert forall|k: ValKey| atom_has_var(*x, k) implies vkeys(vs@).contains(k) by {
                assert(body_has_var(body@, k));
            }
        }
        let g = ground_atom(x, vs, a);
        let id = intern(atoms, g, Ghost(m));
        proof {
            let lk = rk.1[j as int];
            assert(lk == inst_lit(body@[j as int], vk, ak));
            assert(lk == (positive, akey(g)));
            assert(rk.1.take(j + 1) =~= rk.1.take(j as int).push(lk));
            assert(rk.1.take(j + 1).map_values(|l: LitKey| l.1) =~= rk.1.take(j as int).map_values(|l: LitKey| l.1).push(lk.1));
            m = m.push(akey(g));
            assert(ids_keys(pos@, atoms@) =~= ids_keys(pos@, at0)) by {
                assert forall|k: int| 0 <= k < pos@.len() implies ids_keys(pos@, atoms@)[k] == ids_keys(pos@, at0)[k] by {
                    assert(pos@[k] < at0.len());
                }
            }
            assert(ids_keys(neg@, atoms@) =~= ids_keys(neg@, at0)) by {
                assert forall|k: int| 0 <= k < neg@.len() implies ids_keys(neg@, atoms@)[k] == ids_keys(neg@, at0)[k] by {
                    assert(neg@[k] < at0.len());
                }
            }
        }
        if positive {
            let ghost p0 = pos@;
            pos.push(id);
            proof {
                assert(ids_keys(pos@, atoms@) =~= ids_keys(p0, atoms@).push(akey(atoms@[id as int])));
                assert(rk.1.take(j + 1).drop_last() =~= rk.1.take(j as int));
            }
        } else {
            let ghost n0 = neg@;
            neg.push(id);
            proof {
                assert(ids_keys(neg@, atoms@) =~= ids_keys(n0, atoms@).push(akey(atoms@[id as int])));
                assert(rk.1.take(j + 1).drop_last() =~= rk.1.take(j as int));
            }
        }
        j = j + 1;
    }
    proof {
        assert(rk.1.take(j as int) =~= rk.1);
        assert(em.push(rk).drop_last() =~= em);
        assert(all_mentions(em.push(rk)) =~= m);
    }
    let ghost at1 = atoms@;
    out.push(GRule { head: hid, pos, neg });
    proof {
        let em2 = em.push(rk);
        assert forall|k: int| 0 <= k < out@.len() implies grule_is(#[trigger] out@[k], atoms@, em2[k]) by {
            if k < out0.len() {
                assert(out@[k] == out0[k]);
                assert(grule_is(out0[k], a0, em[k]));
                lemma_grule_extend(out0[k], a0, atoms@, em[k]);
            }
        }
    }
}

// ---------------------------------------------------------------------------
// Assignments.

/// Each assignment of `prev` extended by each of the first `n` values of `u`
/// in turn (the new variable changing slowest).
pub open spec fn layer(prev: Seq<Seq<ValKey>>, u: Seq<ValKey>, n: nat) -> Seq<Seq<ValKey>>
    decreases n,
{
    if n == 0 {
        Seq::empty()
    } else {
        layer(prev, u, (n - 1) as nat) + prev.map_values(|x: Seq<ValKey>| x.push(u[n - 1]))
    }
}

/// The assignments of values from `u` to `k` variables, the first variable
/// changing fastest.
pub open spec fn asgs(k: nat, u: Seq<ValKey>) -> Seq<Seq<ValKey>>
    decreases k,
{
    if k == 0 { seq![Seq::empty()] } else { layer(asgs((k - 1) as nat, u), u, u.len()) }
}

/// The instances of `head :- body` with the values of the variables after
/// the first `p` fixed to `suffix`.
pub open spec fn emits(hs: Option<Atom>, body: Seq<Literal>, vs: Seq<ValKey>, u: Seq<ValKey>, p: nat, suffix: Seq<ValKey>) -> Seq<RuleKey> {
    asgs(p, u).map_values(|x: Seq<ValKey>| inst_rule(hs, body, vs, x + suffix))
}

/// Like `emits`, with variable `p - 1` taking only the first `n` values.
pub open spec fn emits_part(hs: Option<Atom>, body: Seq<Literal>, vs: Seq<ValKey>, u: Seq<ValKey>, p: nat, suffix: Seq<ValKey>, n: nat) -> Seq<RuleKey> {
    layer(asgs((p - 1) as nat, u), u, n).map_values(|x: Seq<ValKey>| inst_rule(hs, body, vs, x + suffix))
}

/// The instances of `head :- body` over the universe `u`.
pub open spec fn instances(hs: Option<Atom>, body: Seq<Literal>, vs: Seq<ValKey>, u: Seq<ValKey>) -> Seq<RuleKey> {
    asgs(vs.len(), u).map_values(|x: Seq<ValKey>| inst_rule(hs, body, vs, x))
}

/// Emit the instances of `head :- body` for every assignment of the first `p`
/// variables, the others keeping their values in `a`.
fn enum_assign(
    head: Option<&Atom>,
    body: &Vec<Literal>,
    vs: &Vec<Val>,
    u: &Vec<Val>,
    p: usize,
    a: &mut Vec<Val>,
    atoms: &mut Vec<GroundAtom>,
    out: &mut Vec<GRule>,
    Ghost(em): Ghost<Seq<RuleKey>>,
)
    requires
        p <= vs@.len(),
        old(a)@.len() == vs@.len(),
        emitted_ok(old(out)@, old(atoms)@, em),
        vkeys(vs@).no_duplicates(),
        match head { Some(h) => terms_plain(h.args@), None => true },
        forall|l: int| 0 <= l < body@.len() ==> terms_plain(lit_atom(#[trigger] body@[l]).args@),
        forall|k: ValKey| #![trigger vkeys(vs@).contains(k)] ((match head { Some(h) => Some(*h), None => None }) matches Some(h) && atom_has_var(h, k)) || body_has_var(body@, k) ==> vkeys(vs@).contains(k),
    ensures
        final(a)@.len() == old(a)@.len(),
        vkeys(final(a)@).skip(p as int) == vkeys(old(a)@).skip(p as int),
        emitted_ok(final(out)@, final(atoms)@, em + emits(match head { Some(h) => Some(*h), None => None }, body@, vkeys(vs@), vkeys(u@), p as nat, vkeys(old(a)@).skip(p as int))),
    decreases p,
{
    let ghost hs = match head { Some(h) => Some(*h), None => None };
    let ghost vk = vkeys(vs@);
    let ghost uk = vkeys(u@);
    let ghost suffix = vkeys(a@).skip(p as int);
    if p == 0 {
        emit_instance(head, body, vs, a, atoms, out, Ghost(em));
        proof {
            let e = emits(hs, body@, vk, uk, 0, suffix);
            assert(asgs(0, uk) == seq![Seq::<ValKey>::empty()]);
            assert(Seq::<ValKey>::empty() + suffix =~= vkeys(a@));
            assert(e =~= seq![inst_rule(hs, body@, vk, vkeys(a@))]);
            assert(em.push(inst_rule(hs, body@, vk, vkeys(a@))) =~= em + e);
        }
        return;
    }
    let ghost prev = asgs((p - 1) as nat, uk);
    let mut n: usize = 0;
    proof {
        assert(emits_part(hs, body@, vk, uk, p as nat, suffix, 0) =~= Seq::<RuleKey>::empty());
        assert(em + emits_part(hs, body@, vk, uk, p as nat, suffix, 0) =~= em);
    }
    while n < u.len()
        invariant
            1 <= p <= vs@.len(),
            a@.len() == vs@.len(),
            n <= u@.len(),
            uk == vkeys(u@),
            vk == vkeys(vs@),
            prev == asgs((p - 1) as nat, uk),
            vkeys(a@).skip(p as int) == suffix,
            vkeys(vs@).no_duplicates(),
            hs == (match head { Some(h) => Some(*h), None => None }),
            match head { Some(h) => terms_plain(h.args@), None => true },
            forall|l: int| 0 <= l < body@.len() ==> terms_plain(lit_atom(#[trigger] body@[l]).args@),
            forall|k: ValKey| #![trigger vkeys(vs@).contains(k)] ((match head { Some(h) => Some(*h), None => None }) matches Some(h) && atom_has_var(h, k)) || body_has_var(body@, k) ==> vkeys(vs@).contains(k),
            emitted_ok(out@, atoms@, em + emits_part(hs, body@, vk, uk, p as nat, suffix, n as nat)),
        decreases u@.len() - n,
    {
        let ghost a0 = a@;
        let ghost done = em + emits_part(hs, body@, vk, uk, p as nat, suffix, n as nat);
        a.set(p - 1, crate::asp::copy_val(&u[n]));
        let ghost s1 = vkeys(a@).skip(p - 1);
        proof {
            assert(vkeys(a@).skip(p as int) =~= vkeys(a0).skip(p as int));
            assert(s1 =~= seq![uk[n as int]] + suffix) by {
                assert(vkeys(a@)[p - 1] == vkey(u@[n as int]));
                assert forall|q: int| 0 <= q < s1.len() implies s1[q] == (seq![uk[n as int]] + suffix)[q] by {
                    if q > 0 {
                        assert(s1[q] == vkeys(a@)[p - 1 + q]);
                        assert(suffix[q - 1] == vkeys(a0)[p + q - 1]);
                    }
                }
            }
        }
        enum_assign(head, body, vs, u, p - 1, a, atoms, out, Ghost(done));
        proof {
            let x = uk[n as int];
            let f = |z: Seq<ValKey>| inst_rule(hs, body@, vk, z + suffix);
            let pushed = prev.map_values(|z: Seq<ValKey>| z.push(x));
            assert(layer(prev, uk, (n + 1) as nat) == layer(prev, uk, n as nat) + pushed);
            let e1 = emits(hs, body@, vk, uk, (p - 1) as nat, s1);
            assert(e1 =~= pushed.map_values(f)) by {
                assert forall|q: int| 0 <= q < e1.len() implies e1[q] == pushed.map_values(f)[q] by {
                    assert(prev[q].push(x) + suffix =~= prev[q] + (seq![x] + suffix));
                }
            }
            assert(emits_part(hs, body@, vk, uk, p as nat, suffix, (n + 1) as nat) =~=
                emits_part(hs, body@, vk, uk, p as nat, suffix, n as nat) + e1);
            assert(done + e1 =~= em + emits_part(hs, body@, vk, uk, p as nat, suffix, (n + 1) as nat));
            assert(vkeys(a@).skip(p as int) =~= suffix) by {
                assert forall|q: int| 0 <= q < suffix.len() implies vkeys(a@).skip(p as int)[q] == suffix[q] by {
                    assert(vkeys(a@).skip(p - 1)[q + 1] == s1[q + 1]);
                }
            }
        }
        n = n + 1;
    }
    proof {
        assert(emits_part(hs, body@, vk, uk, p as nat, suffix, n as nat) =~= emits(hs, body@, vk, uk, p as nat, suffix));
    }
}

// ---------------------------------------------------------------------------
// Grounding a program.

/// `n` to the power `k`.
pub open spec fn upow(n: nat, k: nat) -> nat
    decreases k,
{
    if k == 0 { 1 } else { upow(n, (k - 1) as nat) * n }
}

proof fn lemma_upow_mono(n: nat, i: nat, k: nat)
    requires
        n >= 1,
        i <= k,
    ensures
        upow(n, i) <= upow(n, k),
    decreases k - i,
{
    if i < k {
        lemma_upow_mono(n, i, (k - 1) as nat);
        let a = upow(n, (k - 1) as nat);
        assert(a * n >= a) by (nonlinear_arith)
            requires n >= 1;
    }
}

/// Whether `k` variables over `n` values give more than the allowed number of
/// instantiations.
fn too_large(k: usize, n: usize) -> (b: bool)
    requires
        n >= 1,
    ensures
        b == (upow(n as nat, k as nat) > crate::asp::MAX_INSTANTIATIONS),
{
    let mut total: usize = 1;
    let mut i: usize = 0;
    while i < k
        invariant
            i <= k,
            n >= 1,
            total as nat == upow(n as nat, i as nat),
        decreases k - i,
    {
        match total.checked_mul(n) {
            Some(t) => {
                total = t;
            },
            None => {
                proof {
                    lemma_upow_mono(n as nat, (i + 1) as nat, k as nat);
                }
                return true;
            },
        }
        i = i + 1;
    }
    total > crate::asp::MAX_INSTANTIATIONS
}

/// The first aggregate or compound term, as `first_unplain`.
fn unplain_terms(ts: &Vec<Term>) -> (c: u8)
    ensures
        c as int == first_unplain(ts@),
        c <= 2,
{
    let mut i: usize = 0;
    assert(ts@.skip(0) =~= ts@);
    while i < ts.len()
        invariant
            i <= ts@.len(),
            first_unplain(ts@) == first_unplain(ts@.skip(i as int)),
        decreases ts@.len() - i,
    {
        proof {
            assert(ts@.skip(i as int)[0] == ts@[i as int]);
            assert(ts@.skip(i as int).drop_first() =~= ts@.skip(i + 1));
        }
        match &ts[i] {
            Term::Agg => { return 1; },
            Term::Compound => { return 2; },
            _ => {},
        }
        i = i + 1;
    }
    0
}

/// The first aggregate or compound term of `head :- body`, as `rule_unplain`.
fn unplain_rule(head: Option<&Atom>, body: &Vec<Literal>) -> (c: u8)
    ensures
        c as int == rule_unplain(match head { Some(h) => Some(*h), None => None }, body@),
        c <= 2,
{
    if let Some(h) = head {
        let c = unplain_terms(&h.args);
        if c != 0 {
            return c;
        }
    }
    let mut i: usize = 0;
    assert(body@.skip(0) =~= body@);
    while i < body.len()
        invariant
            i <= body@.len(),
            body_unplain(body@) == body_unplain(body@.skip(i as int)),
            match head { Some(h) => first_unplain(h.args@) == 0, None => true },
        decreases body@.len() - i,
    {
        proof {
            assert(body@.skip(i as int)[0] == body@[i as int]);
            assert(body@.skip(i as int).drop_first() =~= body@.skip(i + 1));
        }
        let x = match &body[i] {
            Literal::Pos(x) => x,
            Literal::Neg(x) => x,
        };
        assert(*x == lit_atom(body@[i as int]));
        let c = unplain_terms(&x.args);
        if c != 0 {
            return c;
        }
        i = i + 1;
    }
    0
}

/// What grounding one rule yields: 0 if it grounds, 1 if it has too many
/// instantiations, 2 or 3 if it has one at least and an aggregate or a
/// compound term.
pub open spec fn rule_code(k: nat, n: nat, unplain: int) -> int {
    if k > 0 && n == 0 {
        0
    } else if upow(n, k) > crate::asp::MAX_INSTANTIATIONS {
        1
    } else if unplain != 0 {
        1 + unplain
    } else {
        0
    }
}

/// Ground `head :- body` over the universe `u`, appending its instances;
/// returns the `rule_code` and the rule's variables.
fn ground_one(
    head: Option<&Atom>,
    body: &Vec<Literal>,
    u: &Vec<Val>,
    atoms: &mut Vec<GroundAtom>,
    out: &mut Vec<GRule>,
    Ghost(em): Ghost<Seq<RuleKey>>,
) -> (r: (u8, Ghost<Seq<ValKey>>))
    requires
        emitted_ok(old(out)@, old(atoms)@, em),
    ensures
        vars_ok(r.1@, match head { Some(h) => Some(*h), None => None }, body@),
        r.0 as int == rule_code(r.1@.len(), u@.len(), rule_unplain(match head { Some(h) => Some(*h), None => None }, body@)),
        r.0 <= 3,
        r.0 == 0 ==> emitted_ok(final(out)@, final(atoms)@, em + instances(match head { Some(h) => Some(*h), None => None }, body@, r.1@, vkeys(u@))),
{
    let ghost hs = match head { Some(h) => Some(*h), None => None };
    let vs = rule_vars(head, body);
    let ghost vk = vkeys(vs@);
    let k = vs.len();
    let n = u.len();
    if k > 0 && n == 0 {
        proof {
            assert(asgs(k as nat, vkeys(u@)) =~= Seq::<Seq<ValKey>>::empty());
            assert(em + instances(hs, body@, vk, vkeys(u@)) =~= em);
        }
        return (0, Ghost(vk));
    }
    if n > 0 && too_large(k, n) {
        return (1, Ghost(vk));
    }
    if n == 0 {
        assert(upow(0, 0) == 1);
    }
    let c = unplain_rule(head, body);
    if c != 0 {
        return (1 + c, Ghost(vk));
    }
    proof {
        if let Some(h) = hs {
            lemma_first_unplain(h.args@);
        }
        lemma_body_unplain(body@);
        assert(vk.no_duplicates()) by {
            assert forall|i: int, j: int| 0 <= i < vk.len() && 0 <= j < vk.len() && i != j implies vk[i] != vk[j] by {
                if i < j { assert(ord_vk(vk[i], vk[j]) < 0); lemma_ord_vk_irrefl(vk[i]); }
                else { assert(ord_vk(vk[j], vk[i]) < 0); lemma_ord_vk_irrefl(vk[j]); }
            }
        }
    }
    let mut a: Vec<Val> = Vec::new();
    let mut i: usize = 0;
    while i < k
        invariant
            i <= k,
            k == vs@.len(),
            n == u@.len(),
            n > 0 || k == 0,
            a@.len() == i,
        decreases k - i,
    {
        a.push(crate::asp::copy_val(&u[0]));
        i = i + 1;
    }
    enum_assign(head, body, &vs, u, k, &mut a, atoms, out, Ghost(em));
    proof {
        assert(vkeys(a@).skip(k as int) =~= Seq::<ValKey>::empty());
        let e = emits(hs, body@, vk, vkeys(u@), k as nat, Seq::empty());
        assert(e =~= instances(hs, body@, vk, vkeys(u@))) by {
            assert forall|q: int| 0 <= q < e.len() implies e[q] == instances(hs, body@, vk, vkeys(u@))[q] by {
                let x = asgs(k as nat, vkeys(u@))[q];
                assert(x + Seq::<ValKey>::empty() =~= x);
            }
        }
    }
    (0, Ghost(vk))
}

proof fn lemma_ord_vk_irrefl(x: ValKey)
    ensures
        ord_vk(x, x) == 0,
{
    crate::asp::program::lemma_ord_str_eq(x.1, x.1);
}

/// A body with no aggregate or compound term is plain in every literal.
proof fn lemma_body_unplain(b: Seq<Literal>)
    ensures
        body_unplain(b) == 0 || body_unplain(b) == 1 || body_unplain(b) == 2,
        body_unplain(b) == 0 ==> forall|l: int| 0 <= l < b.len() ==> terms_plain(lit_atom(#[trigger] b[l]).args@),
    decreases b.len(),
{
    if b.len() > 0 {
        lemma_first_unplain(lit_atom(b[0]).args@);
        lemma_body_unplain(b.drop_first());
        if body_unplain(b) == 0 {
            assert forall|l: int| 0 <= l < b.len() implies terms_plain(lit_atom(#[trigger] b[l]).args@) by {
                if l > 0 {
                    assert(b[l] == b.drop_first()[l - 1]);
                }
            }
        }
    }
}

/// Strictly ascending keys compare below, above, or equal consistently.
proof fn lemma_ord_vk_antisym(a: ValKey, b: ValKey)
    ensures
        ord_vk(a, b) == -ord_vk(b, a),
{
    lemma_orders();
    let f = crate::asp::order::lex_of(crate::asp::order::ord_char());
    assert(f(a.1, b.1) == -f(b.1, a.1));
}

/// Two strictly ascending key lists with the same elements are equal.
proof fn lemma_sorted_unique(s: Seq<ValKey>, t: Seq<ValKey>)
    requires
        forall|i: int, j: int| 0 <= i < j < s.len() ==> ord_vk(s[i], s[j]) < 0,
        forall|i: int, j: int| 0 <= i < j < t.len() ==> ord_vk(t[i], t[j]) < 0,
        forall|x: ValKey| s.contains(x) <==> t.contains(x),
    ensures
        s == t,
    decreases s.len(),
{
    if s.len() == 0 {
        if t.len() > 0 {
            assert(t.contains(t[0]));
        }
        assert(s =~= t);
    } else {
        assert(s.contains(s[0]));
        assert(t.len() > 0);
        assert(t.contains(t[0]));
        let i = choose|i: int| 0 <= i < s.len() && s[i] == t[0];
        let j = choose|j: int| 0 <= j < t.len() && t[j] == s[0];
        if i > 0 && j > 0 {
            assert(ord_vk(s[0], s[i]) < 0);
            assert(ord_vk(t[0], t[j]) < 0);
            lemma_ord_vk_antisym(s[0], t[0]);
        }
        assert(s[0] == t[0]);
        let s1 = s.drop_first();
        let t1 = t.drop_first();
        assert forall|x: ValKey| s1.contains(x) <==> t1.contains(x) by {
            if s1.contains(x) {
                let k = choose|k: int| 0 <= k < s1.len() && s1[k] == x;
                assert(ord_vk(s[0], s[k + 1]) < 0);
                lemma_ord_vk_irrefl(s[0]);
                assert(t.contains(x));
                let q = choose|q: int| 0 <= q < t.len() && t[q] == x;
                assert(q != 0);
                assert(t1[q - 1] == x);
            }
            if t1.contains(x) {
                let k = choose|k: int| 0 <= k < t1.len() && t1[k] == x;
                assert(ord_vk(t[0], t[k + 1]) < 0);
                lemma_ord_vk_irrefl(t[0]);
                assert(s.contains(x)) by { assert(t.contains(x)); }
                let q = choose|q: int| 0 <= q < s.len() && s[q] == x;
                assert(q != 0);
                assert(s1[q - 1] == x);
            }
        }
        lemma_sorted_unique(s1, t1);
        assert(s =~= seq![s[0]] + s1);
        assert(t =~= seq![t[0]] + t1);
    }
}

/// The Herbrand universe of the program, ascending.
pub open spec fn universe_of(rules: Seq<Rule>, facts: Seq<GroundAtom>, cons: Seq<Vec<Literal>>) -> Seq<ValKey> {
    choose|u: Seq<ValKey>| universe_ok(u, rules, facts, cons)
}

/// The variables of `head :- body`, ascending by name.
pub open spec fn vars_of(head: Option<Atom>, body: Seq<Literal>) -> Seq<ValKey> {
    choose|vs: Seq<ValKey>| vars_ok(vs, head, body)
}

proof fn lemma_universe_of(u: Seq<ValKey>, rules: Seq<Rule>, facts: Seq<GroundAtom>, cons: Seq<Vec<Literal>>)
    requires
        universe_ok(u, rules, facts, cons),
    ensures
        universe_of(rules, facts, cons) == u,
{
    let w = universe_of(rules, facts, cons);
    assert(universe_ok(w, rules, facts, cons));
    lemma_sorted_unique(w, u);
}

proof fn lemma_vars_of(vs: Seq<ValKey>, head: Option<Atom>, body: Seq<Literal>)
    requires
        vars_ok(vs, head, body),
    ensures
        vars_of(head, body) == vs,
{
    let w = vars_of(head, body);
    assert(vars_ok(w, head, body));
    lemma_sorted_unique(w, vs);
}

/// The outcome of grounding the rules in turn over the universe `u`: the first
/// nonzero `rule_code`, or 0 and the instances of them all, in order.
pub open spec fn rules_outcome(rules: Seq<Rule>, u: Seq<ValKey>) -> (int, Seq<RuleKey>)
    decreases rules.len(),
{
    if rules.len() == 0 {
        (0, Seq::empty())
    } else {
        let prev = rules_outcome(rules.drop_last(), u);
        let r = rules.last();
        let vs = vars_of(Some(r.head), r.body@);
        let c = rule_code(vs.len(), u.len(), rule_unplain(Some(r.head), r.body@));
        if prev.0 != 0 {
            prev
        } else if c != 0 {
            (c, prev.1)
        } else {
            (0, prev.1 + instances(Some(r.head), r.body@, vs, u))
        }
    }
}

/// The same for the constraints.
pub open spec fn cons_outcome(cons: Seq<Vec<Literal>>, u: Seq<ValKey>) -> (int, Seq<RuleKey>)
    decreases cons.len(),
{
    if cons.len() == 0 {
        (0, Seq::empty())
    } else {
        let prev = cons_outcome(cons.drop_last(), u);
        let b = cons.last();
        let vs = vars_of(None, b@);
        let c = rule_code(vs.len(), u.len(), rule_unplain(None, b@));
        if prev.0 != 0 {
            prev
        } else if c != 0 {
            (c, prev.1)
        } else {
            (0, prev.1 + instances(None, b@, vs, u))
        }
    }
}

/// A fact as a ground rule.
pub open spec fn fact_rule(f: GroundAtom) -> RuleKey {
    (Some(akey(f)), Seq::empty())
}

/// The outcome of grounding the program: the facts, then the rules' instances,
/// then the constraints', or the first failing rule's or constraint's code.
pub open spec fn ground_outcome(rules: Seq<Rule>, facts: Seq<GroundAtom>, cons: Seq<Vec<Literal>>) -> (int, Seq<RuleKey>) {
    let u = universe_of(rules, facts, cons);
    let r = rules_outcome(rules, u);
    let c = cons_outcome(cons, u);
    if r.0 != 0 {
        (r.0, Seq::empty())
    } else if c.0 != 0 {
        (c.0, Seq::empty())
    } else {
        (0, facts.map_values(|f: GroundAtom| fact_rule(f)) + r.1 + c.1)
    }
}

/// The error of a failing code: 1 too large, 2 an aggregate, 3 a compound term.
pub open spec fn error_code(e: AspError) -> int {
    match e {
        AspError::TooLargeGrounding => 1,
        AspError::Unsupported(w) => if w@ == "aggregate atom"@ { 2 } else if w@ == "compound term"@ { 3 } else { 0 },
        AspError::TooManyChoices(_) => 0,
    }
}

/// `r` is the result of the outcome `o`.
pub open spec fn ground_result(r: Result<Ground, AspError>, o: (int, Seq<RuleKey>)) -> bool {
    match r {
        Ok(g) => o.0 == 0 && ground_wf(g) && emitted_ok(g.rules@, g.atoms@, o.1),
        Err(e) => o.0 != 0 && error_code(e) == o.0,
    }
}

/// The error for a failing code.
fn code_error(c: u8) -> (e: AspError)
    requires
        1 <= c <= 3,
    ensures
        error_code(e) == c,
{
    proof {
        reveal_strlit("aggregate atom");
        reveal_strlit("compound term");
    }
    if c == 1 {
        AspError::TooLargeGrounding
    } else if c == 2 {
        AspError::Unsupported("aggregate atom")
    } else {
        assert("compound term"@ != "aggregate atom"@) by {
            assert("compound term"@[0] != "aggregate atom"@[0]);
        }
        AspError::Unsupported("compound term")
    }
}

proof fn lemma_rules_stuck(rules: Seq<Rule>, u: Seq<ValKey>, i: int)
    requires
        0 <= i <= rules.len(),
        rules_outcome(rules.take(i), u).0 != 0,
    ensures
        rules_outcome(rules, u).0 == rules_outcome(rules.take(i), u).0,
    decreases rules.len() - i,
{
    if i < rules.len() {
        assert(rules.take(i + 1).drop_last() =~= rules.take(i));
        lemma_rules_stuck(rules, u, i + 1);
    } else {
        assert(rules.take(i) =~= rules);
    }
}

proof fn lemma_cons_stuck(cons: Seq<Vec<Literal>>, u: Seq<ValKey>, i: int)
    requires
        0 <= i <= cons.len(),
        cons_outcome(cons.take(i), u).0 != 0,
    ensures
        cons_outcome(cons, u).0 == cons_outcome(cons.take(i), u).0,
    decreases cons.len() - i,
{
    if i < cons.len() {
        assert(cons.take(i + 1).drop_last() =~= cons.take(i));
        lemma_cons_stuck(cons, u, i + 1);
    } else {
        assert(cons.take(i) =~= cons);
    }
}

/// Ground a normal program (facts, rules, constraints) over its Herbrand
/// universe into interned ground rules: the facts, then every instance of every
/// rule, then of every constraint, each rule's assignments with its first
/// variable (by name) changing fastest and the values ascending; the atoms are
/// numbered by first mention. A rule with more than `MAX_INSTANTIATIONS`
/// instances, or with at least one instance and an aggregate or compound term,
/// stops the grounding with an error.
pub fn ground(rules: &[Rule], facts: &[GroundAtom], constraints: &[Vec<Literal>]) -> (r: Result<Ground, AspError>)
    ensures
        ground_result(r, ground_outcome(rules@, facts@, constraints@)),
{
    let u = universe(rules, facts, constraints);
    let ghost uk = vkeys(u@);
    proof {
        lemma_universe_of(uk, rules@, facts@, constraints@);
    }
    let mut atoms: Vec<GroundAtom> = Vec::new();
    let mut out: Vec<GRule> = Vec::new();
    let ghost mut em: Seq<RuleKey> = Seq::empty();
    proof {
        assert(akeys(atoms@) =~= dedup_keys(all_mentions(em)));
    }
    let mut i: usize = 0;
    while i < facts.len()
        invariant
            i <= facts@.len(),
            emitted_ok(out@, atoms@, em),
            em == facts@.take(i as int).map_values(|f: GroundAtom| fact_rule(f)),
        decreases facts@.len() - i,
    {
        let a = crate::asp::copy_atom(&facts[i]);
        let ghost a0 = atoms@;
        let ghost out0 = out@;
        let ghost fr = fact_rule(facts@[i as int]);
        proof {
            assert(akey(a) == akey(facts@[i as int])) by {
                assert(vkeys(a.1@) =~= vkeys(facts@[i as int].1@));
            }
        }
        let ghost ka = akey(a);
        let id = intern(&mut atoms, a, Ghost(all_mentions(em)));
        out.push(GRule { head: Some(id), pos: Vec::new(), neg: Vec::new() });
        proof {
            let em2 = em.push(fr);
            assert(em2.drop_last() =~= em);
            assert(mentions(fr) =~= seq![ka]);
            assert(all_mentions(em2) =~= all_mentions(em).push(ka));
            assert forall|k: int| 0 <= k < out@.len() implies grule_is(#[trigger] out@[k], atoms@, em2[k]) by {
                if k < out0.len() {
                    assert(out@[k] == out0[k]);
                    assert(grule_is(out0[k], a0, em[k]));
                    lemma_grule_extend(out0[k], a0, atoms@, em[k]);
                } else {
                    assert(pos_keys(fr.1) =~= Seq::<AtomKey>::empty());
                    assert(neg_keys(fr.1) =~= Seq::<AtomKey>::empty());
                    assert(ids_keys(out@[k].pos@, atoms@) =~= Seq::<AtomKey>::empty());
                    assert(ids_keys(out@[k].neg@, atoms@) =~= Seq::<AtomKey>::empty());
                }
            }
            assert(facts@.take(i + 1) =~= facts@.take(i as int).push(facts@[i as int]));
            em = em2;
            assert(em =~= facts@.take(i + 1).map_values(|f: GroundAtom| fact_rule(f)));
        }
        i = i + 1;
    }
    let ghost ef = em;
    let mut i: usize = 0;
    proof {
        assert(facts@.take(facts@.len() as int) =~= facts@);
        assert(rules@.take(0) =~= Seq::<Rule>::empty());
        assert(ef + rules_outcome(rules@.take(0), uk).1 =~= ef);
    }
    while i < rules.len()
        invariant
            i <= rules@.len(),
            uk == vkeys(u@),
            uk == universe_of(rules@, facts@, constraints@),
            ef == facts@.map_values(|f: GroundAtom| fact_rule(f)),
            rules_outcome(rules@.take(i as int), uk).0 == 0,
            emitted_ok(out@, atoms@, ef + rules_outcome(rules@.take(i as int), uk).1),
        decreases rules@.len() - i,
    {
        let ghost emi = ef + rules_outcome(rules@.take(i as int), uk).1;
        let (c, Ghost(vs)) = ground_one(Some(&rules[i].head), &rules[i].body, &u, &mut atoms, &mut out, Ghost(emi));
        proof {
            lemma_vars_of(vs, Some(rules@[i as int].head), rules@[i as int].body@);
            assert(rules@.take(i + 1).drop_last() =~= rules@.take(i as int));
            assert(rules@.take(i + 1).last() == rules@[i as int]);
        }
        if c != 0 {
            proof {
                lemma_rules_stuck(rules@, uk, i + 1);
            }
            let e = code_error(c);
            return Err(e);
        }
        proof {
            assert(emi + instances(Some(rules@[i as int].head), rules@[i as int].body@, vs, uk) =~= ef + rules_outcome(rules@.take(i + 1), uk).1);
        }
        i = i + 1;
    }
    proof {
        assert(rules@.take(i as int) =~= rules@);
        assert(constraints@.take(0) =~= Seq::<Vec<Literal>>::empty());
    }
    let ghost efr = ef + rules_outcome(rules@, uk).1;
    proof {
        assert(efr + cons_outcome(constraints@.take(0), uk).1 =~= efr);
    }
    let mut i: usize = 0;
    while i < constraints.len()
        invariant
            i <= constraints@.len(),
            uk == vkeys(u@),
            uk == universe_of(rules@, facts@, constraints@),
            efr == ef + rules_outcome(rules@, uk).1,
            ef == facts@.map_values(|f: GroundAtom| fact_rule(f)),
            rules_outcome(rules@, uk).0 == 0,
            cons_outcome(constraints@.take(i as int), uk).0 == 0,
            emitted_ok(out@, atoms@, efr + cons_outcome(constraints@.take(i as int), uk).1),
        decreases constraints@.len() - i,
    {
        let ghost emi = efr + cons_outcome(constraints@.take(i as int), uk).1;
        let (c, Ghost(vs)) = ground_one(None, &constraints[i], &u, &mut atoms, &mut out, Ghost(emi));
        proof {
            lemma_vars_of(vs, None, constraints@[i as int]@);
            assert(constraints@.take(i + 1).drop_last() =~= constraints@.take(i as int));
            assert(constraints@.take(i + 1).last() == constraints@[i as int]);
        }
        if c != 0 {
            proof {
                lemma_cons_stuck(constraints@, uk, i + 1);
            }
            let e = code_error(c);
            return Err(e);
        }
        proof {
            assert(emi + instances(None, constraints@[i as int]@, vs, uk) =~= efr + cons_outcome(constraints@.take(i + 1), uk).1);
        }
        i = i + 1;
    }
    proof {
        assert(constraints@.take(i as int) =~= constraints@);
        let g = Ground { rules: out, atoms };
        assert forall|q: int| 0 <= q < out@.len() implies {
            &&& (#[trigger] out@[q]).head matches Some(h) ==> h < atoms@.len()
            &&& forall|k: int| 0 <= k < out@[q].pos@.len() ==> out@[q].pos@[k] < atoms@.len()
            &&& forall|k: int| 0 <= k < out@[q].neg@.len() ==> out@[q].neg@[k] < atoms@.len()
        } by {
            let ek = ef + rules_outcome(rules@, uk).1 + cons_outcome(constraints@, uk).1;
            assert(grule_is(out@[q], atoms@, ek[q]));
        }
    }
    Ok(Ground { rules: out, atoms })
}

/// What `stable_models_of` gives for the ground program `g`.
pub open spec fn solved(r: Result<Vec<Vec<GroundAtom>>, AspError>, g: Ground) -> bool {
    &&& r is Err <==> crate::asp::negated(g.rules@).len() > crate::asp::MAX_GUESS_ATOMS
    &&& r matches Err(e) ==> e == AspError::TooManyChoices(crate::asp::negated(g.rules@).len() as usize)
    &&& r matches Ok(ms) ==> crate::asp::answer_list(g, ms@)
}

/// The grounding `g` of the program is the outcome `o`, and `r` what its
/// stable models give.
pub open spec fn solved_from(r: Result<Vec<Vec<GroundAtom>>, AspError>, g: Ground, o: (int, Seq<RuleKey>)) -> bool {
    ground_wf(g) && emitted_ok(g.rules@, g.atoms@, o.1) && solved(r, g)
}

/// All stable models of a normal program (rules, facts, constraints), each as
/// its ground atoms in ascending order, the models in ascending order: the
/// stable models of its grounding.
pub fn solve(rules: &[Rule], facts: &[GroundAtom], constraints: &[Vec<Literal>]) -> (r: Result<Vec<Vec<GroundAtom>>, AspError>)
    ensures
        ground_outcome(rules@, facts@, constraints@).0 != 0 ==>
            (r matches Err(e) && error_code(e) == ground_outcome(rules@, facts@, constraints@).0),
        ground_outcome(rules@, facts@, constraints@).0 == 0 ==>
            exists|g: Ground| #[trigger] solved_from(r, g, ground_outcome(rules@, facts@, constraints@)),
{
    let g = match ground(rules, facts, constraints) {
        Ok(g) => g,
        Err(e) => return Err(e),
    };
    let r = crate::asp::stable_models_of(&g);
    assert(solved_from(r, g, ground_outcome(rules@, facts@, constraints@)));
    r
}

} // verus!
