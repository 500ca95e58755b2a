//! The lowering of a checked program's rules to Core-IR: each rule's
//! variables get slots in the order they first appear (head, then body),
//! its constants are interned into one symbol dictionary shared by the whole
//! program, and each declared predicate becomes a Core-IR predicate with its
//! arity, the semiring its annotation executes in, and its stratum.
use vstd::prelude::*;
use crate::check::asp_decls::lit_atom;
use crate::check::asp_decls::diags_v;
use crate::check::program::{check_semantics, program_errors};
use crate::check::strata::{decl_errors, decl_info, edges_of, index_of, index_upto, lemma_heads_declared, order_of, strata_errors, strings_v, Strata};
use crate::check::{ints, max_upto, respects};
use crate::diag::Diagnostic;
use crate::eval::coreir::{CoreAtom, CoreLiteral, CorePred, CoreProgram, CoreRule, CoreTerm};
use crate::eval::naive::slots_below;
use crate::eval::value::{GroundVal, Semiring};
use crate::front::ir::{Annotation, Atom, Item, ItemKind, Literal, Program, QueryKind, Rule, Term, Weight};
use crate::text::same_text;

verus! {

/// `d` with `n` appended unless it is there already.
pub open spec fn add_name(d: Seq<Seq<char>>, n: Seq<char>) -> Seq<Seq<char>> {
    if d.contains(n) { d } else { d.push(n) }
}

/// No name occurs twice.
pub open spec fn distinct(d: Seq<Seq<char>>) -> bool {
    forall|i: int, j: int| 0 <= i < j < d.len() ==> d[i] != d[j]
}

/// The slots after the variable of term `t` (if it names one).
pub open spec fn slot_term(s: Seq<Seq<char>>, t: Term) -> Seq<Seq<char>> {
    match t {
        Term::Var { name } => add_name(s, name@),
        Term::Agg { var, .. } => add_name(s, var@),
        _ => s,
    }
}

pub open spec fn slots_terms(s: Seq<Seq<char>>, ts: Seq<Term>, k: nat) -> Seq<Seq<char>>
    decreases k,
{
    if k == 0 { s } else { slot_term(slots_terms(s, ts, (k - 1) as nat), ts[k - 1]) }
}

pub open spec fn slots_lits(s: Seq<Seq<char>>, body: Seq<Literal>, k: nat) -> Seq<Seq<char>>
    decreases k,
{
    if k == 0 {
        s
    } else {
        let a = lit_atom(body[k - 1]);
        slots_terms(slots_lits(s, body, (k - 1) as nat), a.args@, a.args@.len())
    }
}

/// A rule's variables in the order they first appear, head first.
pub open spec fn rule_slots(r: Rule) -> Seq<Seq<char>> {
    slots_lits(slots_terms(Seq::empty(), r.head.args@, r.head.args@.len()), r.body@, r.body@.len())
}

/// The Core-IR term of `t` under the slots, with the dictionary as it is
/// before `t` is lowered.
pub open spec fn lower_term(t: Term, slots: Seq<Seq<char>>, d: Seq<Seq<char>>) -> CoreTerm {
    match t {
        Term::Var { name } => CoreTerm::Var { slot: index_of(slots, name@) as u32 },
        Term::Const { name } => CoreTerm::Const { sym: index_of(add_name(d, name@), name@) as u32 },
        Term::Int { value } => CoreTerm::Int { value },
        Term::Agg { op, var } => CoreTerm::Agg { op, slot: index_of(slots, var@) as u32 },
        Term::Compound { .. } => CoreTerm::Int { value: 0 },
    }
}

/// The dictionary after `t`'s constant is interned.
pub open spec fn dict_term(d: Seq<Seq<char>>, t: Term) -> Seq<Seq<char>> {
    match t {
        Term::Const { name } => add_name(d, name@),
        _ => d,
    }
}

/// The first `k` terms lowered, and the dictionary after them.
pub open spec fn lower_terms(ts: Seq<Term>, slots: Seq<Seq<char>>, d: Seq<Seq<char>>, k: nat) -> (Seq<CoreTerm>, Seq<Seq<char>>)
    decreases k,
{
    if k == 0 {
        (Seq::empty(), d)
    } else {
        let (xs, d1) = lower_terms(ts, slots, d, (k - 1) as nat);
        (xs.push(lower_term(ts[k - 1], slots, d1)), dict_term(d1, ts[k - 1]))
    }
}

/// A Core-IR atom by content.
pub type AtomV = (Seq<char>, Seq<CoreTerm>);

/// A Core-IR literal by content: positive or not, and its atom.
pub type LitV = (bool, AtomV);

/// A Core-IR rule by content: head, body, slot count and stratum.
pub type RuleV = (AtomV, Seq<LitV>, u32, u32);

pub open spec fn atom_v(a: CoreAtom) -> AtomV {
    (a.pred@, a.args@)
}

pub open spec fn lit_v(l: CoreLiteral) -> LitV {
    match l {
        CoreLiteral::Pos(a) => (true, atom_v(a)),
        CoreLiteral::Neg(a) => (false, atom_v(a)),
    }
}

pub open spec fn rule_v(r: CoreRule) -> RuleV {
    (atom_v(r.head), r.body@.map_values(|l: CoreLiteral| lit_v(l)), r.var_count, r.stratum)
}

pub open spec fn lower_atom(a: Atom, slots: Seq<Seq<char>>, d: Seq<Seq<char>>) -> (AtomV, Seq<Seq<char>>) {
    let (xs, d1) = lower_terms(a.args@, slots, d, a.args@.len());
    ((a.pred@, xs), d1)
}

pub open spec fn lower_lits(body: Seq<Literal>, slots: Seq<Seq<char>>, d: Seq<Seq<char>>, k: nat) -> (Seq<LitV>, Seq<Seq<char>>)
    decreases k,
{
    if k == 0 {
        (Seq::empty(), d)
    } else {
        let (ls, d1) = lower_lits(body, slots, d, (k - 1) as nat);
        let (a, d2) = lower_atom(lit_atom(body[k - 1]), slots, d1);
        (ls.push((body[k - 1] is Pos, a)), d2)
    }
}

/// A rule lowered at the stratum of its head, and the dictionary after it.
pub open spec fn lower_rule(r: Rule, order: Seq<Seq<char>>, strata: Seq<u32>, d: Seq<Seq<char>>) -> (RuleV, Seq<Seq<char>>) {
    let slots = rule_slots(r);
    let (h, d1) = lower_atom(r.head, slots, d);
    let (b, d2) = lower_lits(r.body@, slots, d1, r.body@.len());
    ((h, b, slots.len() as u32, strata[index_of(order, r.head.pred@)]), d2)
}

/// The ground value of a fact or query term, with the dictionary as it is
/// before the term.
pub open spec fn ground_val(t: Term, d: Seq<Seq<char>>) -> GroundVal {
    match t {
        Term::Const { name } => GroundVal::Sym(index_of(add_name(d, name@), name@) as u32),
        Term::Int { value } => GroundVal::Int(value),
        _ => GroundVal::Int(0),
    }
}

/// The first `k` fact terms as ground values, and the dictionary after them.
pub open spec fn ground_vals(ts: Seq<Term>, d: Seq<Seq<char>>, k: nat) -> (Seq<GroundVal>, Seq<Seq<char>>)
    decreases k,
{
    if k == 0 {
        (Seq::empty(), d)
    } else {
        let (xs, d1) = ground_vals(ts, d, (k - 1) as nat);
        (xs.push(ground_val(ts[k - 1], d1)), dict_term(d1, ts[k - 1]))
    }
}

/// The value a query term fixes, if it fixes one.
pub open spec fn pattern_val(t: Term, d: Seq<Seq<char>>) -> Option<GroundVal> {
    match t {
        Term::Const { .. } | Term::Int { .. } => Some(ground_val(t, d)),
        _ => None,
    }
}

pub open spec fn pattern_vals(ts: Seq<Term>, d: Seq<Seq<char>>, k: nat) -> (Seq<Option<GroundVal>>, Seq<Seq<char>>)
    decreases k,
{
    if k == 0 {
        (Seq::empty(), d)
    } else {
        let (xs, d1) = pattern_vals(ts, d, (k - 1) as nat);
        (xs.push(pattern_val(ts[k - 1], d1)), dict_term(d1, ts[k - 1]))
    }
}

/// A certain fact by content: predicate, values, tropical weight.
pub type FactV = (Seq<char>, Seq<GroundVal>, Option<Weight>);

/// A probabilistic fact by content: predicate, values, probability as written.
pub type ProbV = (Seq<char>, Seq<GroundVal>, Seq<char>);

/// A query by content: its kind, predicate and the values it fixes.
pub type QueryV = (QueryKind, Seq<char>, Seq<Option<GroundVal>>);

/// What the first `k` items lower to: rules, certain facts, probabilistic
/// facts, queries, and the dictionary after them.
pub type LowV = (Seq<RuleV>, Seq<FactV>, Seq<ProbV>, Seq<QueryV>, Seq<Seq<char>>);

pub open spec fn lower_upto(items: Seq<Item>, order: Seq<Seq<char>>, strata: Seq<u32>, k: nat) -> LowV
    decreases k,
{
    if k == 0 {
        (Seq::empty(), Seq::empty(), Seq::empty(), Seq::empty(), Seq::empty())
    } else {
        let (rs, fs, ps, qs, d) = lower_upto(items, order, strata, (k - 1) as nat);
        match items[k - 1].node {
            ItemKind::Rule(r) => {
                let (rv, d1) = lower_rule(r, order, strata, d);
                (rs.push(rv), fs, ps, qs, d1)
            },
            ItemKind::Fact(f) => {
                let (vs, d1) = ground_vals(f.atom.args@, d, f.atom.args@.len());
                match f.prob {
                    Some(p) => (rs, fs, ps.push((f.atom.pred@, vs, p@)), qs, d1),
                    None => (rs, fs.push((f.atom.pred@, vs, f.weight)), ps, qs, d1),
                }
            },
            ItemKind::Query(q) => {
                let (vs, d1) = pattern_vals(q.atom.args@, d, q.atom.args@.len());
                (rs, fs, ps, qs.push((q.kind, q.atom.pred@, vs)), d1)
            },
            _ => (rs, fs, ps, qs, d),
        }
    }
}

/// The semiring a predicate's annotation executes in: provenance tuples
/// exist or not, so they are Bool sets here.
pub open spec fn ann_semiring(a: Annotation) -> Semiring {
    match a {
        Annotation::Trop => Semiring::Trop,
        _ => Semiring::Bool,
    }
}

/// A Core-IR predicate by content.
pub type PredV = (Seq<char>, u32, Semiring, u32);

pub open spec fn pred_v(p: CorePred) -> PredV {
    (p.name@, p.arity, p.semiring, p.stratum)
}

/// The declared predicate `name` at stratum `s`.
pub open spec fn lower_pred(items: Seq<Item>, name: Seq<char>, s: u32) -> PredV {
    let (n, a, _) = decl_info(items, items.len(), name).unwrap();
    (name, n as u32, ann_semiring(a), s)
}

/// The terms of a sequence are not compound.
pub open spec fn flat(ts: Seq<Term>) -> bool {
    forall|i: int| 0 <= i < ts.len() ==> !(#[trigger] ts[i] is Compound)
}

/// No term of the rule is compound.
pub open spec fn rule_flat(r: Rule) -> bool {
    flat(r.head.args@) && forall|j: int| 0 <= j < r.body@.len() ==> flat(#[trigger] lit_atom(r.body@[j]).args@)
}

/// The item has no compound term.
pub open spec fn item_flat(node: ItemKind) -> bool {
    match node {
        ItemKind::Rule(r) => rule_flat(r),
        ItemKind::Fact(f) => flat(f.atom.args@),
        _ => true,
    }
}

/// No rule or fact of the program has a compound term.
pub open spec fn rules_flat(items: Seq<Item>) -> bool {
    forall|i: int| 0 <= i < items.len() ==> item_flat(#[trigger] items[i].node)
}

/// The number of terms of the rules among the first `k` items.
pub open spec fn lits_size(body: Seq<Literal>, k: nat) -> nat
    decreases k,
{
    if k == 0 { 0 } else { lits_size(body, (k - 1) as nat) + lit_atom(body[k - 1]).args@.len() }
}

pub open spec fn rule_size(r: Rule) -> nat {
    r.head.args@.len() + lits_size(r.body@, r.body@.len())
}

pub open spec fn size_upto(items: Seq<Item>, k: nat) -> nat
    decreases k,
{
    if k == 0 {
        0
    } else {
        size_upto(items, (k - 1) as nat) + match items[k - 1].node {
            ItemKind::Rule(r) => rule_size(r),
            ItemKind::Predicate(p) => p.sig.args@.len(),
            ItemKind::Fact(f) => f.atom.args@.len(),
            ItemKind::Query(q) => q.atom.args@.len(),
            _ => 0,
        }
    }
}

/// A checked program lowered: its Core-IR and the symbol dictionary its
/// constants were interned into.
#[derive(Debug)]
pub struct Checked {
    pub core: CoreProgram,
    pub dict: Vec<String>,
    pub edb: Vec<(String, Vec<GroundVal>, Option<Weight>)>,
    pub prob_edb: Vec<(String, Vec<GroundVal>, String)>,
    pub queries: Vec<QuerySpec>,
}

/// A query: its kind, predicate and, per argument, the value it fixes.
#[derive(Debug, PartialEq)]
pub struct QuerySpec {
    pub kind: QueryKind,
    pub pred: String,
    pub pattern: Vec<Option<GroundVal>>,
}

pub open spec fn fact_v(f: (String, Vec<GroundVal>, Option<Weight>)) -> FactV {
    (f.0@, f.1@, f.2)
}

pub open spec fn prob_v(f: (String, Vec<GroundVal>, String)) -> ProbV {
    (f.0@, f.1@, f.2@)
}

pub open spec fn query_v(q: QuerySpec) -> QueryV {
    (q.kind, q.pred@, q.pattern@)
}

/// Intern `name`: its index, appending it first if it is new.
fn intern(d: &mut Vec<String>, name: &str) -> (r: u32)
    requires
        old(d)@.len() < u32::MAX,
        distinct(strings_v(old(d)@)),
    ensures
        strings_v(final(d)@) == add_name(strings_v(old(d)@), name@),
        r == index_of(strings_v(final(d)@), name@),
        distinct(strings_v(final(d)@)),
{
    let ghost o = strings_v(d@);
    let mut i: usize = d.len();
    while i > 0
        invariant
            i <= d@.len(),
            d@.len() < u32::MAX,
            o == strings_v(d@),
            o == strings_v(old(d)@),
            distinct(o),
            index_of(o, name@) == index_upto(o, name@, i as nat),
            forall|j: int| i <= j < o.len() ==> o[j] != name@,
        decreases i,
    {
        assert(o[i - 1] == d@[i - 1]@);
        if same_text(d[i - 1].as_str(), name) {
            assert(o.contains(name@));
            return (i - 1) as u32;
        }
        i = i - 1;
    }
    assert(!o.contains(name@));
    let n = d.len();
    d.push(name.to_string());
    assert(strings_v(d@) =~= o.push(name@));
    assert(strings_v(d@)[n as int] == name@);
    assert(index_upto(strings_v(d@), name@, (n + 1) as nat) == n);
    n as u32
}

/// The position of `name` among the names, as `index_of` gives it.
fn position(d: &Vec<String>, name: &str) -> (r: usize)
    ensures
        r == index_of(strings_v(d@), name@),
{
    let ghost o = strings_v(d@);
    let mut i: usize = d.len();
    while i > 0
        invariant
            i <= d@.len(),
            o == strings_v(d@),
            index_of(o, name@) == index_upto(o, name@, i as nat),
        decreases i,
    {
        assert(o[i - 1] == d@[i - 1]@);
        if same_text(d[i - 1].as_str(), name) {
            return i - 1;
        }
        i = i - 1;
    }
    0
}

proof fn lemma_index_in(o: Seq<Seq<char>>, name: Seq<char>)
    requires
        o.contains(name),
    ensures
        0 <= index_of(o, name) < o.len(),
{
    let j = choose|j: int| 0 <= j < o.len() && o[j] == name;
    lemma_index_upto_in(o, name, o.len(), j);
}

proof fn lemma_index_upto_in(o: Seq<Seq<char>>, name: Seq<char>, k: nat, j: int)
    requires
        0 <= j < k <= o.len(),
        o[j] == name,
    ensures
        0 <= index_upto(o, name, k) < k,
    decreases k,
{
    if o[k - 1] != name {
        lemma_index_upto_in(o, name, (k - 1) as nat, j);
    }
}

fn lower_term_exec(t: &Term, slots: &Vec<String>, dict: &mut Vec<String>) -> (c: CoreTerm)
    requires
        !(*t is Compound),
        old(dict)@.len() < u32::MAX,
        distinct(strings_v(old(dict)@)),
        slots@.len() <= u32::MAX,
    ensures
        c == lower_term(*t, strings_v(slots@), strings_v(old(dict)@)),
        strings_v(final(dict)@) == dict_term(strings_v(old(dict)@), *t),
        distinct(strings_v(final(dict)@)),
{
    proof {
        if slots@.len() > 0 {
            assert(strings_v(slots@).contains(strings_v(slots@)[0]));
        }
    }
    match t {
        Term::Var { name } => {
            let k = position(slots, name.as_str());
            proof { lemma_position_fits(strings_v(slots@), name@); }
            CoreTerm::Var { slot: k as u32 }
        },
        Term::Const { name } => {
            let s = intern(dict, name.as_str());
            CoreTerm::Const { sym: s }
        },
        Term::Int { value } => CoreTerm::Int { value: *value },
        Term::Agg { op, var } => {
            let k = position(slots, var.as_str());
            proof { lemma_position_fits(strings_v(slots@), var@); }
            CoreTerm::Agg { op: *op, slot: k as u32 }
        },
        Term::Compound { .. } => CoreTerm::Int { value: 0 },
    }
}

proof fn lemma_position_fits(o: Seq<Seq<char>>, name: Seq<char>)
    requires
        o.len() <= u32::MAX,
    ensures
        0 <= index_of(o, name) <= u32::MAX,
{
    lemma_index_upto_bound(o, name, o.len());
}

proof fn lemma_index_upto_bound(o: Seq<Seq<char>>, name: Seq<char>, k: nat)
    requires
        k <= o.len(),
    ensures
        0 <= index_upto(o, name, k) <= k,
    decreases k,
{
    if k > 0 {
        lemma_index_upto_bound(o, name, (k - 1) as nat);
    }
}

fn lower_atom_exec(a: &Atom, slots: &Vec<String>, dict: &mut Vec<String>) -> (c: CoreAtom)
    requires
        flat(a.args@),
        old(dict)@.len() + a.args@.len() < u32::MAX,
        distinct(strings_v(old(dict)@)),
        slots@.len() <= u32::MAX,
    ensures
        (atom_v(c), strings_v(final(dict)@)) == lower_atom(*a, strings_v(slots@), strings_v(old(dict)@)),
        final(dict)@.len() <= old(dict)@.len() + a.args@.len(),
        distinct(strings_v(final(dict)@)),
{
    let ghost d0 = strings_v(dict@);
    let ghost sl = strings_v(slots@);
    let mut args: Vec<CoreTerm> = Vec::new();
    let mut k: usize = 0;
    while k < a.args.len()
        invariant
            k <= a.args@.len(),
            flat(a.args@),
            d0.len() + a.args@.len() < u32::MAX,
            dict@.len() <= d0.len() + k,
            distinct(strings_v(dict@)),
            slots@.len() <= u32::MAX,
            sl == strings_v(slots@),
            (args@, strings_v(dict@)) == lower_terms(a.args@, sl, d0, k as nat),
        decreases a.args@.len() - k,
    {
        assert(!(a.args@[k as int] is Compound));
        let c = lower_term_exec(&a.args[k], slots, dict);
        args.push(c);
        k = k + 1;
    }
    CoreAtom { pred: a.pred.clone(), args }
}

/// Give slots to the variables of the terms, in order.
fn slots_exec(ts: &Vec<Term>, s: &mut Vec<String>)
    requires
        old(s)@.len() + ts@.len() < u32::MAX,
        distinct(strings_v(old(s)@)),
    ensures
        strings_v(final(s)@) == slots_terms(strings_v(old(s)@), ts@, ts@.len()),
        final(s)@.len() <= old(s)@.len() + ts@.len(),
        distinct(strings_v(final(s)@)),
{
    let ghost s0 = strings_v(s@);
    let mut k: usize = 0;
    while k < ts.len()
        invariant
            k <= ts@.len(),
            s0.len() + ts@.len() < u32::MAX,
            s@.len() <= s0.len() + k,
            distinct(strings_v(s@)),
            strings_v(s@) == slots_terms(s0, ts@, k as nat),
        decreases ts@.len() - k,
    {
        match &ts[k] {
            Term::Var { name } => {
                intern(s, name.as_str());
            },
            Term::Agg { var, .. } => {
                intern(s, var.as_str());
            },
            _ => {},
        }
        k = k + 1;
    }
}

fn rule_slots_exec(r: &Rule) -> (s: Vec<String>)
    requires
        rule_size(*r) < u32::MAX,
    ensures
        strings_v(s@) == rule_slots(*r),
        s@.len() <= rule_size(*r),
{
    let mut s: Vec<String> = Vec::new();
    assert(strings_v(s@) =~= Seq::<Seq<char>>::empty());
    assert(distinct(strings_v(s@)));
    slots_exec(&r.head.args, &mut s);
    let mut j: usize = 0;
    let ghost s0 = strings_v(s@);
    proof { lemma_lits_size_mono(r.body@, 0, r.body@.len()); }
    while j < r.body.len()
        invariant
            j <= r.body@.len(),
            rule_size(*r) < u32::MAX,
            s0 == slots_terms(Seq::empty(), r.head.args@, r.head.args@.len()),
            s@.len() <= r.head.args@.len() + lits_size(r.body@, j as nat),
            distinct(strings_v(s@)),
            strings_v(s@) == slots_lits(s0, r.body@, j as nat),
        decreases r.body@.len() - j,
    {
        let a = match &r.body[j] {
            Literal::Pos(a) => a,
            Literal::Neg(a) => a,
        };
        assert(*a == lit_atom(r.body@[j as int]));
        proof { lemma_lits_size_mono(r.body@, (j + 1) as nat, r.body@.len()); }
        slots_exec(&a.args, &mut s);
        j = j + 1;
    }
    s
}

proof fn lemma_lits_size_mono(body: Seq<Literal>, j: nat, k: nat)
    requires
        j <= k <= body.len(),
    ensures
        lits_size(body, j) <= lits_size(body, k),
    decreases k - j,
{
    if j < k {
        lemma_lits_size_mono(body, j, (k - 1) as nat);
    }
}

fn lower_rule_exec(r: &Rule, order: &Vec<String>, strata: &Vec<u32>, dict: &mut Vec<String>) -> (c: CoreRule)
    requires
        rule_flat(*r),
        old(dict)@.len() + rule_size(*r) < u32::MAX,
        distinct(strings_v(old(dict)@)),
        strings_v(order@).contains(r.head.pred@),
        strata@.len() == order@.len(),
    ensures
        (rule_v(c), strings_v(final(dict)@)) == lower_rule(*r, strings_v(order@), strata@, strings_v(old(dict)@)),
        final(dict)@.len() <= old(dict)@.len() + rule_size(*r),
        distinct(strings_v(final(dict)@)),
{
    let ghost d0 = strings_v(dict@);
    let ghost o = strings_v(order@);
    let slots = rule_slots_exec(r);
    let ghost sl = strings_v(slots@);
    proof { lemma_lits_size_mono(r.body@, 0, r.body@.len()); }
    let head = lower_atom_exec(&r.head, &slots, dict);
    let ghost d1 = strings_v(dict@);
    let mut body: Vec<CoreLiteral> = Vec::new();
    let mut j: usize = 0;
    assert(body@.map_values(|l: CoreLiteral| lit_v(l)) =~= Seq::<LitV>::empty());
    while j < r.body.len()
        invariant
            j <= r.body@.len(),
            rule_flat(*r),
            d0.len() + rule_size(*r) < u32::MAX,
            d1.len() <= d0.len() + r.head.args@.len(),
            dict@.len() <= d1.len() + lits_size(r.body@, j as nat),
            distinct(strings_v(dict@)),
            slots@.len() <= rule_size(*r),
            sl == strings_v(slots@),
            (body@.map_values(|l: CoreLiteral| lit_v(l)), strings_v(dict@)) == lower_lits(r.body@, sl, d1, j as nat),
        decreases r.body@.len() - j,
    {
        let ghost b0 = body@;
        proof { lemma_lits_size_mono(r.body@, (j + 1) as nat, r.body@.len()); }
        let (a, pos) = match &r.body[j] {
            Literal::Pos(a) => (a, true),
            Literal::Neg(a) => (a, false),
        };
        assert(*a == lit_atom(r.body@[j as int]));
        assert(pos == (r.body@[j as int] is Pos));
        assert(flat(lit_atom(r.body@[j as int]).args@));
        let ca = lower_atom_exec(a, &slots, dict);
        let l = if pos { CoreLiteral::Pos(ca) } else { CoreLiteral::Neg(ca) };
        assert(lit_v(l) == (pos, atom_v(ca)));
        body.push(l);
        assert(body@ == b0.push(l));
        assert(body@.map_values(|l: CoreLiteral| lit_v(l)) =~= b0.map_values(|l: CoreLiteral| lit_v(l)).push(lit_v(l)));
        j = j + 1;
    }
    let h = position(order, r.head.pred.as_str());
    proof { lemma_index_in(o, r.head.pred@); }
    let st = strata[h];
    CoreRule { head, body, var_count: slots.len() as u32, stratum: st }
}

/// Whether no term of the sequence is compound.
fn flat_exec(ts: &Vec<Term>) -> (b: bool)
    ensures
        b == flat(ts@),
{
    let mut k: usize = 0;
    while k < ts.len()
        invariant
            k <= ts@.len(),
            forall|i: int| 0 <= i < k ==> !(#[trigger] ts@[i] is Compound),
        decreases ts@.len() - k,
    {
        if let Term::Compound { .. } = &ts[k] {
            return false;
        }
        k = k + 1;
    }
    true
}

/// Whether no rule or fact of the program has a compound term.
fn rules_flat_exec(items: &Vec<Item>) -> (b: bool)
    ensures
        b == rules_flat(items@),
{
    let mut k: usize = 0;
    while k < items.len()
        invariant
            k <= items@.len(),
            forall|i: int| 0 <= i < k ==> item_flat(#[trigger] items@[i].node),
        decreases items@.len() - k,
    {
        match &items[k].node {
            ItemKind::Rule(r) => {
                assert(items@[k as int].node == ItemKind::Rule(*r));
                if !flat_exec(&r.head.args) {
                    assert(!item_flat(items@[k as int].node));
                    return false;
                }
                let mut j: usize = 0;
                while j < r.body.len()
                    invariant
                        j <= r.body@.len(),
                        k < items@.len(),
                        items@[k as int].node == ItemKind::Rule(*r),
                        flat(r.head.args@),
                        forall|i: int| 0 <= i < j ==> flat(#[trigger] lit_atom(r.body@[i]).args@),
                    decreases r.body@.len() - j,
                {
                    let a = match &r.body[j] {
                        Literal::Pos(a) => a,
                        Literal::Neg(a) => a,
                    };
                    assert(*a == lit_atom(r.body@[j as int]));
                    if !flat_exec(&a.args) {
                        assert(!flat(lit_atom(r.body@[j as int]).args@));
                        assert(!item_flat(items@[k as int].node));
                        return false;
                    }
                    j = j + 1;
                }
            },
            ItemKind::Fact(f) => {
                assert(items@[k as int].node == ItemKind::Fact(*f));
                if !flat_exec(&f.atom.args) {
                    assert(!item_flat(items@[k as int].node));
                    return false;
                }
            },
            _ => {},
        }
        k = k + 1;
    }
    true
}

/// The fact terms as ground values, their constants interned.
fn ground_vals_exec(ts: &Vec<Term>, dict: &mut Vec<String>) -> (vs: Vec<GroundVal>)
    requires
        old(dict)@.len() + ts@.len() < u32::MAX,
        distinct(strings_v(old(dict)@)),
    ensures
        (vs@, strings_v(final(dict)@)) == ground_vals(ts@, strings_v(old(dict)@), ts@.len()),
        final(dict)@.len() <= old(dict)@.len() + ts@.len(),
        distinct(strings_v(final(dict)@)),
{
    let ghost d0 = strings_v(dict@);
    let mut vs: Vec<GroundVal> = Vec::new();
    let mut k: usize = 0;
    while k < ts.len()
        invariant
            k <= ts@.len(),
            d0.len() + ts@.len() < u32::MAX,
            dict@.len() <= d0.len() + k,
            distinct(strings_v(dict@)),
            (vs@, strings_v(dict@)) == ground_vals(ts@, d0, k as nat),
        decreases ts@.len() - k,
    {
        let v = match &ts[k] {
            Term::Const { name } => GroundVal::Sym(intern(dict, name.as_str())),
            Term::Int { value } => GroundVal::Int(*value),
            _ => GroundVal::Int(0),
        };
        vs.push(v);
        k = k + 1;
    }
    vs
}

/// The values a query's terms fix, their constants interned.
fn pattern_vals_exec(ts: &Vec<Term>, dict: &mut Vec<String>) -> (vs: Vec<Option<GroundVal>>)
    requires
        old(dict)@.len() + ts@.len() < u32::MAX,
        distinct(strings_v(old(dict)@)),
    ensures
        (vs@, strings_v(final(dict)@)) == pattern_vals(ts@, strings_v(old(dict)@), ts@.len()),
        final(dict)@.len() <= old(dict)@.len() + ts@.len(),
        distinct(strings_v(final(dict)@)),
{
    let ghost d0 = strings_v(dict@);
    let mut vs: Vec<Option<GroundVal>> = Vec::new();
    let mut k: usize = 0;
    while k < ts.len()
        invariant
            k <= ts@.len(),
            d0.len() + ts@.len() < u32::MAX,
            dict@.len() <= d0.len() + k,
            distinct(strings_v(dict@)),
            (vs@, strings_v(dict@)) == pattern_vals(ts@, d0, k as nat),
        decreases ts@.len() - k,
    {
        let v = match &ts[k] {
            Term::Const { name } => Some(GroundVal::Sym(intern(dict, name.as_str()))),
            Term::Int { value } => Some(GroundVal::Int(*value)),
            _ => None,
        };
        vs.push(v);
        k = k + 1;
    }
    vs
}

/// The arity and annotation `name` is first declared with.
fn decl_sig(items: &Vec<Item>, name: &str) -> (r: Option<(usize, Annotation)>)
    ensures
        r == match decl_info(items@, items@.len(), name@) {
            Some((n, a, _)) => Some((n as usize, a)),
            None => None::<(usize, Annotation)>,
        },
{
    let mut found: Option<(usize, Annotation)> = None;
    let mut k: usize = 0;
    while k < items.len()
        invariant
            k <= items@.len(),
            found == match decl_info(items@, k as nat, name@) {
                Some((n, a, _)) => Some((n as usize, a)),
                None => None::<(usize, Annotation)>,
            },
        decreases items@.len() - k,
    {
        if found.is_none() {
            if let ItemKind::Predicate(p) = &items[k].node {
                if same_text(p.name.as_str(), name) {
                    found = Some((p.sig.args.len(), p.sig.annotation));
                }
            }
        }
        k = k + 1;
    }
    found
}

proof fn lemma_decl_fits(items: Seq<Item>, k: nat, name: Seq<char>)
    requires
        k <= items.len(),
    ensures
        decl_info(items, k, name) matches Some((n, _, _)) ==> n <= size_upto(items, k),
    decreases k,
{
    if k > 0 {
        lemma_decl_fits(items, (k - 1) as nat, name);
    }
}

proof fn lemma_order_declared(items: Seq<Item>, k: nat, j: int)
    requires
        k <= items.len(),
        0 <= j < order_upto_len(items, k),
    ensures
        decl_info(items, k, crate::check::strata::order_upto(items, k)[j]) is Some,
    decreases k,
{
    let o = crate::check::strata::order_upto(items, (k - 1) as nat);
    if j < o.len() {
        lemma_order_declared(items, (k - 1) as nat, j);
    }
}

pub open spec fn order_upto_len(items: Seq<Item>, k: nat) -> nat {
    crate::check::strata::order_upto(items, k).len()
}

proof fn lemma_size_mono(items: Seq<Item>, j: nat, k: nat)
    requires
        j <= k <= items.len(),
    ensures
        size_upto(items, j) <= size_upto(items, k),
    decreases k - j,
{
    if j < k {
        lemma_size_mono(items, j, (k - 1) as nat);
    }
}

/// The semiring an annotation executes in.
fn ann_semiring_exec(a: Annotation) -> (s: Semiring)
    ensures
        s == ann_semiring(a),
{
    match a {
        Annotation::Trop => Semiring::Trop,
        _ => Semiring::Bool,
    }
}

/// Lower a checked program (its declared predicates in order with their
/// strata) to Core-IR: each declared predicate with its arity, semiring and
/// stratum, and each rule in order, its constants interned into one
/// dictionary. `None` when a rule has a compound term, which Core-IR does
/// not hold.
pub fn lower_program(p: &Program, st: &Strata) -> (r: Option<Checked>)
    requires
        strings_v(st.order@) == order_of(*p),
        st.stratum@.len() == st.order@.len(),
        size_upto(p.items@, p.items@.len()) < u32::MAX,
        forall|i: int| 0 <= i < p.items@.len() ==> match #[trigger] p.items@[i].node {
            ItemKind::Rule(r) => order_of(*p).contains(r.head.pred@),
            _ => true,
        },
    ensures
        r is Some <==> rules_flat(p.items@),
        r matches Some(l) ==> {
            let o = order_of(*p);
            let low = lower_upto(p.items@, o, st.stratum@, p.items@.len());
            &&& l.core.rules@.map_values(|c: CoreRule| rule_v(c)) == low.0
            &&& l.edb@.map_values(|f: (String, Vec<GroundVal>, Option<Weight>)| fact_v(f)) == low.1
            &&& l.prob_edb@.map_values(|f: (String, Vec<GroundVal>, String)| prob_v(f)) == low.2
            &&& l.queries@.map_values(|q: QuerySpec| query_v(q)) == low.3
            &&& strings_v(l.dict@) == low.4
            &&& l.core.predicates@.map_values(|c: CorePred| pred_v(c))
                == Seq::new(o.len(), |i: int| lower_pred(p.items@, o[i], st.stratum@[i]))
            &&& l.core.num_strata == st.num_strata
        },
{
    let items = &p.items;
    if !rules_flat_exec(items) {
        return None;
    }
    let ghost o = order_of(*p);
    let ghost strata = st.stratum@;
    let mut dict: Vec<String> = Vec::new();
    let mut rules: Vec<CoreRule> = Vec::new();
    let mut edb: Vec<(String, Vec<GroundVal>, Option<Weight>)> = Vec::new();
    let mut prob_edb: Vec<(String, Vec<GroundVal>, String)> = Vec::new();
    let mut queries: Vec<QuerySpec> = Vec::new();
    let mut k: usize = 0;
    assert(strings_v(dict@) =~= Seq::<Seq<char>>::empty());
    assert(rules@.map_values(|c: CoreRule| rule_v(c)) =~= Seq::<RuleV>::empty());
    assert(edb@.map_values(|f: (String, Vec<GroundVal>, Option<Weight>)| fact_v(f)) =~= Seq::<FactV>::empty());
    assert(prob_edb@.map_values(|f: (String, Vec<GroundVal>, String)| prob_v(f)) =~= Seq::<ProbV>::empty());
    assert(queries@.map_values(|q: QuerySpec| query_v(q)) =~= Seq::<QueryV>::empty());
    while k < items.len()
        invariant
            k <= items@.len(),
            o == order_of(*p),
            strings_v(st.order@) == o,
            strata == st.stratum@,
            strata.len() == o.len(),
            rules_flat(items@),
            size_upto(items@, items@.len()) < u32::MAX,
            forall|i: int| 0 <= i < items@.len() ==> match #[trigger] items@[i].node {
                ItemKind::Rule(r) => o.contains(r.head.pred@),
                _ => true,
            },
            dict@.len() <= size_upto(items@, k as nat),
            distinct(strings_v(dict@)),
            lower_upto(items@, o, strata, k as nat) == (
                rules@.map_values(|c: CoreRule| rule_v(c)),
                edb@.map_values(|f: (String, Vec<GroundVal>, Option<Weight>)| fact_v(f)),
                prob_edb@.map_values(|f: (String, Vec<GroundVal>, String)| prob_v(f)),
                queries@.map_values(|q: QuerySpec| query_v(q)),
                strings_v(dict@),
            ),
        decreases items@.len() - k,
    {
        proof { lemma_size_mono(items@, (k + 1) as nat, items@.len()); }
        assert(item_flat(items@[k as int].node));
        match &items[k].node {
            ItemKind::Rule(r) => {
                assert(items@[k as int].node == ItemKind::Rule(*r));
                let ghost r0 = rules@;
                let c = lower_rule_exec(r, &st.order, &st.stratum, &mut dict);
                rules.push(c);
                assert(rules@ == r0.push(c));
                assert(rules@.map_values(|c: CoreRule| rule_v(c)) =~= r0.map_values(|c: CoreRule| rule_v(c)).push(rule_v(c)));
            },
            ItemKind::Fact(f) => {
                assert(items@[k as int].node == ItemKind::Fact(*f));
                let vs = ground_vals_exec(&f.atom.args, &mut dict);
                match &f.prob {
                    Some(pr) => {
                        let ghost e0 = prob_edb@;
                        let x = (f.atom.pred.clone(), vs, pr.clone());
                        prob_edb.push(x);
                        assert(prob_edb@.map_values(|f: (String, Vec<GroundVal>, String)| prob_v(f))
                            =~= e0.map_values(|f: (String, Vec<GroundVal>, String)| prob_v(f)).push(prob_v(x)));
                    },
                    None => {
                        let ghost e0 = edb@;
                        let x = (f.atom.pred.clone(), vs, f.weight);
                        edb.push(x);
                        assert(edb@.map_values(|f: (String, Vec<GroundVal>, Option<Weight>)| fact_v(f))
                            =~= e0.map_values(|f: (String, Vec<GroundVal>, Option<Weight>)| fact_v(f)).push(fact_v(x)));
                    },
                }
            },
            ItemKind::Query(q) => {
                assert(items@[k as int].node == ItemKind::Query(*q));
                let vs = pattern_vals_exec(&q.atom.args, &mut dict);
                let ghost q0 = queries@;
                let x = QuerySpec { kind: q.kind, pred: q.atom.pred.clone(), pattern: vs };
                queries.push(x);
                assert(queries@.map_values(|q: QuerySpec| query_v(q)) =~= q0.map_values(|q: QuerySpec| query_v(q)).push(query_v(x)));
            },
            _ => {
                assert(match items@[k as int].node {
                    ItemKind::Rule(_) | ItemKind::Fact(_) | ItemKind::Query(_) => false,
                    _ => true,
                });
            },
        }
        k = k + 1;
    }
    let n = st.order.len();
    assert(o.len() == n);
    let mut preds: Vec<CorePred> = Vec::new();
    let mut i: usize = 0;
    assert(preds@.map_values(|c: CorePred| pred_v(c)) =~= Seq::<PredV>::empty());
    while i < n
        invariant
            i <= n,
            n == st.order@.len(),
            o.len() == n,
            o == crate::check::strata::order_upto(items@, items@.len()),
            o == order_of(*p),
            strings_v(st.order@) == o,
            strata == st.stratum@,
            strata.len() == o.len(),
            size_upto(items@, items@.len()) < u32::MAX,
            preds@.map_values(|c: CorePred| pred_v(c)) == Seq::new(i as nat, |x: int| lower_pred(items@, o[x], strata[x])),
        decreases n - i,
    {
        let name = st.order[i].as_str();
        assert(name@ == o[i as int]);
        proof {
            lemma_order_declared(items@, items@.len(), i as int);
            lemma_decl_fits(items@, items@.len(), name@);
        }
        let (ar, ann) = match decl_sig(items, name) {
            Some(x) => x,
            None => {
                assert(false);
                (0, Annotation::Bool)
            },
        };
        let c = CorePred { name: name.to_string(), arity: ar as u32, semiring: ann_semiring_exec(ann), stratum: st.stratum[i] };
        let ghost p0 = preds@;
        assert(c.name@ == o[i as int]);
        assert(pred_v(c) == lower_pred(items@, o[i as int], strata[i as int]));
        preds.push(c);
        assert(preds@ == p0.push(c));
        assert(preds@.map_values(|c: CorePred| pred_v(c)) =~= p0.map_values(|c: CorePred| pred_v(c)).push(pred_v(c)));
        assert(Seq::new((i + 1) as nat, |x: int| lower_pred(items@, o[x], strata[x]))
            =~= Seq::new(i as nat, |x: int| lower_pred(items@, o[x], strata[x])).push(lower_pred(items@, o[i as int], strata[i as int])));
        assert(preds@.map_values(|c: CorePred| pred_v(c)) =~= Seq::new((i + 1) as nat, |x: int| lower_pred(items@, o[x], strata[x])));
        i = i + 1;
    }
    assert(Seq::new(n as nat, |x: int| lower_pred(items@, o[x], strata[x])) =~= Seq::new(o.len(), |x: int| lower_pred(p.items@, o[x], st.stratum@[x])));
    Some(Checked { core: CoreProgram { predicates: preds, rules, num_strata: st.num_strata }, dict, edb, prob_edb, queries })
}

/// Check and lower a program: its errors (see `check_semantics`) if it has
/// any; else, when no rule or fact has a compound term, its Core-IR at the
/// least strata with its facts, probabilistic facts, queries and symbol
/// dictionary, and `None` when one has (Core-IR holds no compound terms).
pub fn check_program(p: &Program) -> (r: Result<Option<Checked>, Vec<Diagnostic>>)
    requires
        (p.items@.len() + 1) * (edges_of(*p).len() + 1) < u32::MAX,
        size_upto(p.items@, p.items@.len()) < u32::MAX,
    ensures
        r is Err <==> program_errors(*p).len() > 0,
        r matches Err(d) ==> diags_v(d@) == program_errors(*p),
        r matches Ok(x) ==> (x is Some <==> rules_flat(p.items@)),
        r matches Ok(Some(l)) ==> {
            let o = order_of(*p);
            let e = edges_of(*p);
            let s = l.core.predicates@.map_values(|c: CorePred| c.stratum);
            let low = lower_upto(p.items@, o, s, p.items@.len());
            &&& respects(o.len(), e, ints(s))
            &&& forall|t: Seq<int>, u: int| #![trigger respects(o.len(), e, t), s[u]]
                respects(o.len(), e, t) && 0 <= u < o.len() ==> s[u] <= t[u]
            &&& l.core.num_strata == if o.len() == 0 { 1 } else { max_upto(ints(s), o.len()) + 1 }
            &&& l.core.rules@.map_values(|c: CoreRule| rule_v(c)) == low.0
            &&& l.edb@.map_values(|f: (String, Vec<GroundVal>, Option<Weight>)| fact_v(f)) == low.1
            &&& l.prob_edb@.map_values(|f: (String, Vec<GroundVal>, String)| prob_v(f)) == low.2
            &&& l.queries@.map_values(|q: QuerySpec| query_v(q)) == low.3
            &&& strings_v(l.dict@) == low.4
            &&& l.core.predicates@.map_values(|c: CorePred| pred_v(c))
                == Seq::new(o.len(), |i: int| lower_pred(p.items@, o[i], s[i]))
        },
{
    let st = match check_semantics(p) {
        Ok(st) => st,
        Err(d) => {
            return Err(d);
        },
    };
    proof {
        assert(strata_errors(*p).len() == 0);
        assert(decl_errors(*p).len() == 0);
        lemma_heads_declared(*p);
    }
    let ghost o = order_of(*p);
    assert(st.stratum@.len() == st.order@.len());
    let r = lower_program(p, &st);
    match r {
        None => Ok(None),
        Some(l) => {
            proof {
                let s = l.core.predicates@.map_values(|c: CorePred| c.stratum);
                assert(l.core.predicates@.map_values(|c: CorePred| pred_v(c)).len() == o.len());
                let m = l.core.predicates@.map_values(|c: CorePred| pred_v(c));
                let w = Seq::new(o.len(), |i: int| lower_pred(p.items@, o[i], st.stratum@[i]));
                assert(m == w);
                assert forall|i: int| 0 <= i < o.len() implies s[i] == st.stratum@[i] by {
                    assert(m[i] == pred_v(l.core.predicates@[i]));
                    assert(w[i] == lower_pred(p.items@, o[i], st.stratum@[i]));
                }
                assert(s =~= st.stratum@);
                assert(ints(s) =~= ints(st.stratum@));
            }
            Ok(Some(l))
        },
    }
}

/// The variable of `t`, if it names one, has a slot.
pub open spec fn var_in(t: Term, slots: Seq<Seq<char>>) -> bool {
    match t {
        Term::Var { name } => slots.contains(name@),
        Term::Agg { var, .. } => slots.contains(var@),
        _ => true,
    }
}

proof fn lemma_slots_terms_cover(s: Seq<Seq<char>>, ts: Seq<Term>, k: nat)
    requires
        k <= ts.len(),
    ensures
        forall|x: Seq<char>| s.contains(x) ==> #[trigger] slots_terms(s, ts, k).contains(x),
        forall|j: int| 0 <= j < k ==> var_in(#[trigger] ts[j], slots_terms(s, ts, k)),
    decreases k,
{
    if k > 0 {
        let km = (k - 1) as nat;
        lemma_slots_terms_cover(s, ts, km);
        let s1 = slots_terms(s, ts, km);
        let s2 = slots_terms(s, ts, k);
        assert forall|x: Seq<char>| s1.contains(x) implies s2.contains(x) by {
            let w = choose|w: int| 0 <= w < s1.len() && s1[w] == x;
            assert(s2[w] == x);
        }
        assert forall|j: int| 0 <= j < k implies var_in(#[trigger] ts[j], s2) by {
            if j == k - 1 {
                match ts[j] {
                    Term::Var { name } => {
                        if !s1.contains(name@) {
                            assert(s2[s1.len() as int] == name@);
                        }
                    },
                    Term::Agg { var, .. } => {
                        if !s1.contains(var@) {
                            assert(s2[s1.len() as int] == var@);
                        }
                    },
                    _ => {},
                }
            } else {
                assert(var_in(ts[j], s1));
            }
        }
    }
}

proof fn lemma_slots_lits_cover(s: Seq<Seq<char>>, body: Seq<Literal>, k: nat)
    requires
        k <= body.len(),
    ensures
        forall|x: Seq<char>| s.contains(x) ==> #[trigger] slots_lits(s, body, k).contains(x),
        forall|j: int, q: int| 0 <= j < k && 0 <= q < lit_atom(body[j]).args@.len()
            ==> var_in(#[trigger] lit_atom(#[trigger] body[j]).args@[q], slots_lits(s, body, k)),
    decreases k,
{
    if k > 0 {
        let km = (k - 1) as nat;
        lemma_slots_lits_cover(s, body, km);
        let s1 = slots_lits(s, body, km);
        let a = lit_atom(body[k - 1]);
        lemma_slots_terms_cover(s1, a.args@, a.args@.len());
        let s2 = slots_lits(s, body, k);
        assert forall|j: int, q: int| 0 <= j < k && 0 <= q < lit_atom(body[j]).args@.len()
            implies var_in(#[trigger] lit_atom(#[trigger] body[j]).args@[q], s2) by {
            if j < k - 1 {
                let t = lit_atom(body[j]).args@[q];
                assert(var_in(t, s1));
            }
        }
    }
}

proof fn lemma_var_in_grows(t: Term, s1: Seq<Seq<char>>, s2: Seq<Seq<char>>)
    requires
        var_in(t, s1),
        forall|x: Seq<char>| s1.contains(x) ==> #[trigger] s2.contains(x),
    ensures
        var_in(t, s2),
{
}

proof fn lemma_lower_terms_below(ts: Seq<Term>, slots: Seq<Seq<char>>, d: Seq<Seq<char>>, k: nat)
    requires
        k <= ts.len(),
        slots.len() <= u32::MAX,
        forall|j: int| 0 <= j < k ==> var_in(#[trigger] ts[j], slots),
    ensures
        lower_terms(ts, slots, d, k).0.len() == k,
        slots_below(lower_terms(ts, slots, d, k).0, slots.len()),
    decreases k,
{
    if k > 0 {
        let km = (k - 1) as nat;
        lemma_lower_terms_below(ts, slots, d, km);
        let (xs, d1) = lower_terms(ts, slots, d, km);
        let t = ts[k - 1];
        assert(var_in(t, slots));
        match t {
            Term::Var { name } => { lemma_index_in(slots, name@); },
            Term::Agg { var, .. } => { lemma_index_in(slots, var@); },
            _ => {},
        }
        let ys = xs.push(lower_term(t, slots, d1));
        assert forall|i: int| 0 <= i < ys.len() implies match #[trigger] ys[i] {
            CoreTerm::Var { slot } => slot < slots.len(),
            CoreTerm::Agg { slot, .. } => slot < slots.len(),
            _ => true,
        } by {
            if i < xs.len() {
                assert(ys[i] == xs[i]);
            }
        }
    }
}

proof fn lemma_lower_lits_below(body: Seq<Literal>, slots: Seq<Seq<char>>, d: Seq<Seq<char>>, k: nat)
    requires
        k <= body.len(),
        slots.len() <= u32::MAX,
        forall|j: int, q: int| 0 <= j < k && 0 <= q < lit_atom(body[j]).args@.len()
            ==> var_in(#[trigger] lit_atom(#[trigger] body[j]).args@[q], slots),
    ensures
        lower_lits(body, slots, d, k).0.len() == k,
        forall|j: int| 0 <= j < k ==> slots_below((#[trigger] lower_lits(body, slots, d, k).0[j]).1.1, slots.len()),
    decreases k,
{
    if k > 0 {
        let km = (k - 1) as nat;
        lemma_lower_lits_below(body, slots, d, km);
        let (ls, d1) = lower_lits(body, slots, d, km);
        let a = lit_atom(body[k - 1]);
        assert forall|q: int| 0 <= q < a.args@.len() implies var_in(#[trigger] a.args@[q], slots) by {
            assert(var_in(lit_atom(body[k - 1]).args@[q], slots));
        }
        lemma_lower_terms_below(a.args@, slots, d1, a.args@.len());
        let ls2 = lower_lits(body, slots, d, k).0;
        assert forall|j: int| 0 <= j < k implies slots_below((#[trigger] ls2[j]).1.1, slots.len()) by {
            if j < km {
                assert(ls2[j] == ls[j]);
            }
        }
    }
}

/// Lowering gives each variable of a rule a slot below the rule's slot
/// count: every variable and aggregate slot of the lowered head and body
/// is one the rule's bindings have.
pub proof fn lemma_lowered_slots_below(r: Rule, order: Seq<Seq<char>>, strata: Seq<u32>, d: Seq<Seq<char>>)
    requires
        rule_slots(r).len() <= u32::MAX,
    ensures
        ({
            let rv = lower_rule(r, order, strata, d).0;
            &&& slots_below(rv.0.1, rv.2 as nat)
            &&& forall|j: int| 0 <= j < rv.1.len() ==> slots_below((#[trigger] rv.1[j]).1.1, rv.2 as nat)
        }),
{
    let sl = rule_slots(r);
    let s0 = slots_terms(Seq::empty(), r.head.args@, r.head.args@.len());
    lemma_slots_terms_cover(Seq::empty(), r.head.args@, r.head.args@.len());
    lemma_slots_lits_cover(s0, r.body@, r.body@.len());
    assert forall|j: int| 0 <= j < r.head.args@.len() implies var_in(#[trigger] r.head.args@[j], sl) by {
        lemma_var_in_grows(r.head.args@[j], s0, sl);
    }
    let (h, d1) = lower_atom(r.head, sl, d);
    lemma_lower_terms_below(r.head.args@, sl, d, r.head.args@.len());
    lemma_lower_lits_below(r.body@, sl, d1, r.body@.len());
}

proof fn lemma_index_upto_at(o: Seq<Seq<char>>, name: Seq<char>, k: nat, j: int)
    requires
        0 <= j < k <= o.len(),
        o[j] == name,
    ensures
        o[index_upto(o, name, k)] == name,
        0 <= index_upto(o, name, k) < k,
    decreases k,
{
    if o[k - 1] != name {
        lemma_index_upto_at(o, name, (k - 1) as nat, j);
    }
}

/// Interning a name gives the position the name then holds.
proof fn lemma_interned_at(d: Seq<Seq<char>>, n: Seq<char>)
    ensures
        0 <= index_of(add_name(d, n), n) < add_name(d, n).len(),
        add_name(d, n)[index_of(add_name(d, n), n)] == n,
        d.is_prefix_of(add_name(d, n)),
{
    let e = add_name(d, n);
    if d.contains(n) {
        let j = choose|j: int| 0 <= j < d.len() && d[j] == n;
        lemma_index_upto_at(e, n, e.len(), j);
    } else {
        lemma_index_upto_at(e, n, e.len(), d.len() as int);
    }
}

proof fn lemma_prefix_trans(a: Seq<Seq<char>>, b: Seq<Seq<char>>, c: Seq<Seq<char>>)
    requires
        a.is_prefix_of(b),
        b.is_prefix_of(c),
    ensures
        a.is_prefix_of(c),
{
    assert forall|i: int| 0 <= i < a.len() implies a[i] == c[i] by {
        assert(a[i] == b[i]);
    }
}

/// A query pattern fixes exactly the ground positions of its atom: a
/// variable, an aggregate or a compound term leaves its position open, an
/// integer fixes its value, and a constant fixes the symbol that the
/// dictionary after the query holds the constant's name at.
pub proof fn lemma_pattern_fixes_ground_positions(ts: Seq<Term>, d: Seq<Seq<char>>, k: nat)
    requires
        k <= ts.len(),
        d.len() + k < u32::MAX,
    ensures
        pattern_vals(ts, d, k).0.len() == k,
        pattern_vals(ts, d, k).1.len() <= d.len() + k,
        d.is_prefix_of(pattern_vals(ts, d, k).1),
        forall|i: int| 0 <= i < k ==> ((#[trigger] pattern_vals(ts, d, k).0[i]) is None
            <==> (ts[i] is Var || ts[i] is Agg || ts[i] is Compound)),
        forall|i: int| 0 <= i < k && ts[i] is Int
            ==> #[trigger] pattern_vals(ts, d, k).0[i] == Some(GroundVal::Int(ts[i]->Int_value)),
        forall|i: int| 0 <= i < k && ts[i] is Const ==> (#[trigger] pattern_vals(ts, d, k).0[i] matches Some(GroundVal::Sym(s))
            && s < pattern_vals(ts, d, k).1.len() && pattern_vals(ts, d, k).1[s as int] == ts[i]->Const_name@),
    decreases k,
{
    if k > 0 {
        let km = (k - 1) as nat;
        lemma_pattern_fixes_ground_positions(ts, d, km);
        let (xs, d1) = pattern_vals(ts, d, km);
        let t = ts[k - 1];
        let d2 = dict_term(d1, t);
        let ys = pattern_vals(ts, d, k).0;
        if let Term::Const { name } = t {
            lemma_interned_at(d1, name@);
        } else {
            assert(d1.is_prefix_of(d2));
        }
        lemma_prefix_trans(d, d1, d2);
        assert forall|i: int| 0 <= i < k && ts[i] is Const implies (#[trigger] ys[i] matches Some(GroundVal::Sym(s))
            && s < d2.len() && d2[s as int] == ts[i]->Const_name@) by {
            if i < km {
                assert(ys[i] == xs[i]);
                let s = xs[i]->Some_0->Sym_0;
                assert(d1[s as int] == d2[s as int]);
            } else {
                lemma_interned_at(d1, ts[i]->Const_name@);
            }
        }
        assert forall|i: int| 0 <= i < k implies ((#[trigger] ys[i]) is None <==> (ts[i] is Var || ts[i] is Agg || ts[i] is Compound)) by {
            if i < km {
                assert(ys[i] == xs[i]);
            }
        }
        assert forall|i: int| 0 <= i < k && ts[i] is Int implies #[trigger] ys[i] == Some(GroundVal::Int(ts[i]->Int_value)) by {
            if i < km {
                assert(ys[i] == xs[i]);
            }
        }
    }
}

/// A fact's values are its ground terms: an integer gives its value and a
/// constant the symbol that the dictionary after the fact holds the
/// constant's name at.
pub proof fn lemma_fact_values(ts: Seq<Term>, d: Seq<Seq<char>>, k: nat)
    requires
        k <= ts.len(),
        d.len() + k < u32::MAX,
    ensures
        ground_vals(ts, d, k).0.len() == k,
        ground_vals(ts, d, k).1.len() <= d.len() + k,
        d.is_prefix_of(ground_vals(ts, d, k).1),
        forall|i: int| 0 <= i < k && ts[i] is Int
            ==> #[trigger] ground_vals(ts, d, k).0[i] == GroundVal::Int(ts[i]->Int_value),
        forall|i: int| 0 <= i < k && ts[i] is Const ==> (#[trigger] ground_vals(ts, d, k).0[i] matches GroundVal::Sym(s)
            && s < ground_vals(ts, d, k).1.len() && ground_vals(ts, d, k).1[s as int] == ts[i]->Const_name@),
    decreases k,
{
    if k > 0 {
        let km = (k - 1) as nat;
        lemma_fact_values(ts, d, km);
        let (xs, d1) = ground_vals(ts, d, km);
        let t = ts[k - 1];
        let d2 = dict_term(d1, t);
        let ys = ground_vals(ts, d, k).0;
        if let Term::Const { name } = t {
            lemma_interned_at(d1, name@);
        } else {
            assert(d1.is_prefix_of(d2));
        }
        lemma_prefix_trans(d, d1, d2);
        assert forall|i: int| 0 <= i < k && ts[i] is Const implies (#[trigger] ys[i] matches GroundVal::Sym(s)
            && s < d2.len() && d2[s as int] == ts[i]->Const_name@) by {
            if i < km {
                assert(ys[i] == xs[i]);
                let s = xs[i]->Sym_0;
                assert(d1[s as int] == d2[s as int]);
            } else {
                lemma_interned_at(d1, ts[i]->Const_name@);
            }
        }
        assert forall|i: int| 0 <= i < k && ts[i] is Int implies #[trigger] ys[i] == GroundVal::Int(ts[i]->Int_value) by {
            if i < km {
                assert(ys[i] == xs[i]);
            }
        }
    }
}

} // verus!
