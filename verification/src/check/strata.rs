//! The declaration and stratification checks of a program: every predicate
//! used is declared with the arity it is used at, no predicate is redeclared
//! with another signature, the dependency graph is stratifiable, and no
//! predicate sits in a forbidden cell of the semiring × recursion table. On
//! success, the declared predicates in order with their least strata.
use vstd::prelude::*;
use crate::check::{Edge, edges_in, ints, last_argmax, lemma_stratify_fits, max_upto, passes, respects, stratifiable, stratify};
use crate::check::asp_decls::{
    atom_diags, body_diags, check_atom, decl_arity, diag, diags_v, lemma_lookup, names, records, text2, DiagV,
};
use crate::check::codes::{CONFLICTING_DECLARATION, NOT_EXECUTABLE, TABLE_2_4_FORBIDDEN, UNSTRATIFIABLE};
use crate::check::recursion::{recursive, recursive_preds};
use crate::diag::{Diagnostic, Span};
use crate::front::ir::{Annotation, Item, ItemKind, Literal, Program, Term};
use crate::text::{dec, push_decimal, same_text};

verus! {

/// An annotation's name.
pub open spec fn ann_text(a: Annotation) -> Seq<char> {
    match a {
        Annotation::Bool => "Bool"@,
        Annotation::Trop => "Trop"@,
        Annotation::Prov => "Prov"@,
        Annotation::ProvK { k } => "Prov_k("@ + dec(k as nat) + ")"@,
    }
}

pub(crate) fn push_ann(s: &mut String, a: Annotation)
    ensures
        final(s)@ == old(s)@ + ann_text(a),
{
    match a {
        Annotation::Bool => s.append("Bool"),
        Annotation::Trop => s.append("Trop"),
        Annotation::Prov => s.append("Prov"),
        Annotation::ProvK { k } => {
            let ghost s0 = s@;
            s.append("Prov_k(");
            push_decimal(s, k as u64);
            s.append(")");
            assert(s@ =~= s0 + ann_text(a));
        },
    }
}

/// The arity, annotation and span of the first declaration of `name` among
/// the first `k` items.
pub open spec fn decl_info(items: Seq<Item>, k: nat, name: Seq<char>) -> Option<(nat, Annotation, Span)>
    decreases k,
{
    if k == 0 {
        None
    } else {
        match decl_info(items, (k - 1) as nat, name) {
            Some(x) => Some(x),
            None => match items[k - 1].node {
                ItemKind::Predicate(p) => if p.name@ == name { Some((p.sig.args@.len(), p.sig.annotation, items[k - 1].span)) } else { None },
                _ => None,
            },
        }
    }
}

proof fn lemma_info_arity(items: Seq<Item>, k: nat, name: Seq<char>)
    ensures
        decl_arity(items, k, name) == match decl_info(items, k, name) { Some(x) => Some(x.0), None => None::<nat> },
    decreases k,
{
    if k > 0 {
        lemma_info_arity(items, (k - 1) as nat, name);
    }
}

pub open spec fn msg_conflict_sig(name: Seq<char>, n: nat, a: Annotation, pn: nat, pa: Annotation) -> Seq<char> {
    "predicate `"@ + name + "` is redeclared with a conflicting signature (arity "@ + dec(n) + " : "@ + ann_text(a)
        + ", was arity "@ + dec(pn) + " : "@ + ann_text(pa) + ")"@
}

/// A redeclaration of item `i` with another arity or annotation.
pub open spec fn sig_diags(items: Seq<Item>, i: int) -> Seq<DiagV> {
    match items[i].node {
        ItemKind::Predicate(p) => match decl_info(items, i as nat, p.name@) {
            Some((pn, pa, _)) => if pn != p.sig.args@.len() || pa != p.sig.annotation {
                seq![(CONFLICTING_DECLARATION, msg_conflict_sig(p.name@, p.sig.args@.len(), p.sig.annotation, pn, pa), items[i].span)]
            } else {
                Seq::empty()
            },
            None => Seq::empty(),
        },
        _ => Seq::empty(),
    }
}

pub open spec fn sigs_upto(items: Seq<Item>, k: nat) -> Seq<DiagV>
    decreases k,
{
    if k == 0 { Seq::empty() } else { sigs_upto(items, (k - 1) as nat) + sig_diags(items, k - 1) }
}

/// The use errors of item `i`: the atoms of rules, facts and queries.
pub open spec fn used_diags(items: Seq<Item>, i: int, reported: Set<Seq<char>>) -> (Seq<DiagV>, Set<Seq<char>>) {
    let span = items[i].span;
    match items[i].node {
        ItemKind::Rule(r) => {
            let (d1, r1) = atom_diags(items, r.head, span, reported);
            let (d2, r2) = body_diags(items, r.body@, r.body@.len(), span, r1);
            (d1 + d2, r2)
        },
        ItemKind::Fact(f) => atom_diags(items, f.atom, span, reported),
        ItemKind::Query(q) => atom_diags(items, q.atom, span, reported),
        _ => (Seq::empty(), reported),
    }
}

pub open spec fn useds_upto(items: Seq<Item>, k: nat) -> (Seq<DiagV>, Set<Seq<char>>)
    decreases k,
{
    if k == 0 {
        (Seq::empty(), Set::empty())
    } else {
        let (d, r) = useds_upto(items, (k - 1) as nat);
        let (d2, r2) = used_diags(items, k - 1, r);
        (d + d2, r2)
    }
}

/// The declaration errors: conflicting redeclarations, then undeclared
/// predicates and arity mismatches, in item order.
pub open spec fn decl_errors(p: Program) -> Seq<DiagV> {
    sigs_upto(p.items@, p.items@.len()) + useds_upto(p.items@, p.items@.len()).0
}

/// The declared predicates among the first `k` items, in the order of their
/// first declarations.
pub open spec fn order_upto(items: Seq<Item>, k: nat) -> Seq<Seq<char>>
    decreases k,
{
    if k == 0 {
        Seq::empty()
    } else {
        let o = order_upto(items, (k - 1) as nat);
        match items[k - 1].node {
            ItemKind::Predicate(p) => if decl_info(items, (k - 1) as nat, p.name@) is None { o.push(p.name@) } else { o },
            _ => o,
        }
    }
}

pub open spec fn order_of(p: Program) -> Seq<Seq<char>> {
    order_upto(p.items@, p.items@.len())
}

/// The position of `name` among the first `k` names.
pub open spec fn index_upto(o: Seq<Seq<char>>, name: Seq<char>, k: nat) -> int
    decreases k,
{
    if k == 0 {
        0
    } else if o[k - 1] == name {
        k - 1
    } else {
        index_upto(o, name, (k - 1) as nat)
    }
}

pub open spec fn index_of(o: Seq<Seq<char>>, name: Seq<char>) -> int {
    index_upto(o, name, o.len())
}

/// The head has an aggregate term.
pub open spec fn agg_head(args: Seq<Term>) -> bool {
    exists|i: int| 0 <= i < args.len() && #[trigger] args[i] is Agg
}

/// The dependency edges of rule body literals among the first `j`: the head
/// depends on each body predicate, strictly through negation or when the head
/// aggregates.
pub open spec fn lit_edges(o: Seq<Seq<char>>, head: Seq<char>, agg: bool, body: Seq<Literal>, j: nat) -> Seq<Edge>
    decreases j,
{
    if j == 0 {
        Seq::empty()
    } else {
        let (a, neg) = match body[j - 1] {
            Literal::Pos(a) => (a, false),
            Literal::Neg(a) => (a, true),
        };
        lit_edges(o, head, agg, body, (j - 1) as nat).push((index_of(o, head) as usize, index_of(o, a.pred@) as usize, neg || agg))
    }
}

pub open spec fn edges_upto(items: Seq<Item>, o: Seq<Seq<char>>, k: nat) -> Seq<Edge>
    decreases k,
{
    if k == 0 {
        Seq::empty()
    } else {
        edges_upto(items, o, (k - 1) as nat) + match items[k - 1].node {
            ItemKind::Rule(r) => lit_edges(o, r.head.pred@, agg_head(r.head.args@), r.body@, r.body@.len()),
            _ => Seq::empty(),
        }
    }
}

/// The program's dependency edges over its declared predicates.
pub open spec fn edges_of(p: Program) -> Seq<Edge> {
    edges_upto(p.items@, order_of(p), p.items@.len())
}

pub open spec fn msg_unstratifiable(name: Seq<char>) -> Seq<char> {
    "predicate `"@ + name + "` depends on its own negation/aggregation through a cycle"@
}

pub open spec fn msg_prov_rec(name: Seq<char>) -> Seq<char> {
    "recursive probabilistic provenance `"@ + name + "` is forbidden exactly; annotate it `Prov_k` for a top-k lower bound"@
}

pub open spec fn msg_prov_k0(name: Seq<char>) -> Seq<char> {
    "`Prov_k(0)` on `"@ + name + "` keeps no proofs; the bound must be ≥ 1"@
}

/// The table errors of the first `k` declared predicates: recursive exact
/// provenance, and a top-k bound of zero.
pub open spec fn table_upto(items: Seq<Item>, o: Seq<Seq<char>>, edges: Seq<Edge>, k: nat) -> Seq<DiagV>
    decreases k,
{
    if k == 0 {
        Seq::empty()
    } else {
        let name = o[k - 1];
        let (_, ann, span) = decl_info(items, items.len(), name)->0;
        table_upto(items, o, edges, (k - 1) as nat) + match ann {
            Annotation::Prov => if recursive(edges, k - 1) { seq![(TABLE_2_4_FORBIDDEN, msg_prov_rec(name), span)] } else { Seq::empty() },
            Annotation::ProvK { k: b } => if b == 0 { seq![(NOT_EXECUTABLE, msg_prov_k0(name), span)] } else { Seq::empty() },
            _ => Seq::empty(),
        }
    }
}

/// The declared predicates, in order, with their strata and the number of
/// strata.
#[derive(Debug)]
pub struct Strata {
    pub order: Vec<String>,
    pub stratum: Vec<u32>,
    pub num_strata: u32,
}


pub open spec fn names_v(d: Seq<(String, usize)>) -> Seq<Seq<char>> {
    d.map_values(|e: (String, usize)| e.0@)
}

proof fn lemma_argmax_lt(s: Seq<int>, k: nat)
    requires
        k >= 1,
    ensures
        0 <= last_argmax(s, k) < k,
    decreases k,
{
    if k > 1 {
        lemma_argmax_lt(s, (k - 1) as nat);
    }
}

proof fn lemma_order_len(items: Seq<Item>, k: nat)
    ensures
        order_upto(items, k).len() <= k,
    decreases k,
{
    if k > 0 {
        lemma_order_len(items, (k - 1) as nat);
    }
}

/// A predicate declared among the first `k` items is in the order.
proof fn lemma_declared_in_order(items: Seq<Item>, k: nat, name: Seq<char>)
    requires
        decl_info(items, k, name) is Some,
    ensures
        order_upto(items, k).contains(name),
    decreases k,
{
    if decl_info(items, (k - 1) as nat, name) is Some {
        lemma_declared_in_order(items, (k - 1) as nat, name);
        let o = order_upto(items, (k - 1) as nat);
        let j = choose|j: int| 0 <= j < o.len() && o[j] == name;
        assert(order_upto(items, k)[j] == name);
    } else {
        let o = order_upto(items, (k - 1) as nat);
        assert(order_upto(items, k) == o.push(name));
        assert(order_upto(items, k)[o.len() as int] == name);
    }
}

proof fn lemma_index_lt(o: Seq<Seq<char>>, name: Seq<char>, k: nat)
    requires
        k <= o.len(),
        exists|j: int| 0 <= j < k && o[j] == name,
    ensures
        0 <= index_upto(o, name, k) < k,
        o[index_upto(o, name, k)] == name,
    decreases k,
{
    if o[k - 1] != name {
        let j = choose|j: int| 0 <= j < k && o[j] == name;
        lemma_index_lt(o, name, (k - 1) as nat);
    }
}

/// Atoms checked without any error are declared, and report nothing.
proof fn lemma_body_quiet(items: Seq<Item>, body: Seq<Literal>, m: nat, span: Span)
    requires
        m <= body.len(),
        body_diags(items, body, m, span, Set::empty()).0.len() == 0,
    ensures
        body_diags(items, body, m, span, Set::empty()).1 == Set::<Seq<char>>::empty(),
        forall|j: int| 0 <= j < m ==> decl_arity(items, items.len(), crate::check::asp_decls::lit_atom(#[trigger] body[j]).pred@) is Some,
    decreases m,
{
    if m > 0 {
        let (d, r) = body_diags(items, body, (m - 1) as nat, span, Set::empty());
        assert(d.len() == 0);
        lemma_body_quiet(items, body, (m - 1) as nat, span);
    }
}

/// A rule's predicates are all declared.
pub open spec fn rule_declared(items: Seq<Item>, node: ItemKind) -> bool {
    match node {
        ItemKind::Rule(r) => decl_arity(items, items.len(), r.head.pred@) is Some
            && forall|j: int| 0 <= j < r.body@.len() ==> decl_arity(items, items.len(), crate::check::asp_decls::lit_atom(#[trigger] r.body@[j]).pred@) is Some,
        _ => true,
    }
}

proof fn lemma_useds_quiet(items: Seq<Item>, k: nat)
    requires
        k <= items.len(),
        useds_upto(items, k).0.len() == 0,
    ensures
        useds_upto(items, k).1 == Set::<Seq<char>>::empty(),
        forall|i: int| 0 <= i < k ==> rule_declared(items, #[trigger] items[i].node),
    decreases k,
{
    if k > 0 {
        let (d, r) = useds_upto(items, (k - 1) as nat);
        assert(d.len() == 0);
        lemma_useds_quiet(items, (k - 1) as nat);
        if let ItemKind::Rule(rl) = items[k - 1].node {
            let (d1, r1) = atom_diags(items, rl.head, items[k - 1].span, Set::empty());
            assert(d1.len() == 0);
            lemma_body_quiet(items, rl.body@, rl.body@.len(), items[k - 1].span);
        }
    }
}

/// A program whose declarations are in order declares the head of each of
/// its rules.
pub proof fn lemma_heads_declared(p: Program)
    requires
        decl_errors(p).len() == 0,
    ensures
        forall|i: int| 0 <= i < p.items@.len() ==> match #[trigger] p.items@[i].node {
            ItemKind::Rule(r) => order_of(p).contains(r.head.pred@),
            _ => true,
        },
{
    let items = p.items@;
    lemma_useds_quiet(items, items.len());
    assert forall|i: int| 0 <= i < items.len() implies match #[trigger] items[i].node {
        ItemKind::Rule(r) => order_of(p).contains(r.head.pred@),
        _ => true,
    } by {
        if let ItemKind::Rule(r) = items[i].node {
            assert(rule_declared(items, items[i].node));
            lemma_info_arity(items, items.len(), r.head.pred@);
            lemma_declared_in_order(items, items.len(), r.head.pred@);
        }
    }
}

proof fn lemma_lit_edges_in(o: Seq<Seq<char>>, head: Seq<char>, agg: bool, body: Seq<Literal>, j: nat, items: Seq<Item>)
    requires
        j <= body.len(),
        o == order_upto(items, items.len()),
        decl_arity(items, items.len(), head) is Some,
        forall|i: int| 0 <= i < body.len() ==> decl_arity(items, items.len(), crate::check::asp_decls::lit_atom(#[trigger] body[i]).pred@) is Some,
    ensures
        edges_in(o.len(), lit_edges(o, head, agg, body, j)),
    decreases j,
{
    if j > 0 {
        lemma_lit_edges_in(o, head, agg, body, (j - 1) as nat, items);
        let a = crate::check::asp_decls::lit_atom(body[j - 1]);
        assert(decl_arity(items, items.len(), a.pred@) is Some);
        lemma_info_arity(items, items.len(), a.pred@);
        lemma_info_arity(items, items.len(), head);
        lemma_declared_in_order(items, items.len(), a.pred@);
        lemma_declared_in_order(items, items.len(), head);
        let ja = choose|x: int| 0 <= x < o.len() && o[x] == a.pred@;
        let jh = choose|x: int| 0 <= x < o.len() && o[x] == head;
        lemma_index_lt(o, a.pred@, o.len());
        lemma_index_lt(o, head, o.len());
        let e = lit_edges(o, head, agg, body, j);
        assert forall|x: int| 0 <= x < e.len() implies (#[trigger] e[x]).0 < o.len() && e[x].1 < o.len() by {
            if x < e.len() - 1 {
                assert(e[x] == lit_edges(o, head, agg, body, (j - 1) as nat)[x]);
            }
        }
    }
}

proof fn lemma_edges_in(items: Seq<Item>, k: nat)
    requires
        k <= items.len(),
        useds_upto(items, items.len()).0.len() == 0,
    ensures
        edges_in(order_upto(items, items.len()).len(), edges_upto(items, order_upto(items, items.len()), k)),
    decreases k,
{
    if k > 0 {
        let o = order_upto(items, items.len());
        lemma_edges_in(items, (k - 1) as nat);
        lemma_useds_quiet(items, items.len());
        let prev = edges_upto(items, o, (k - 1) as nat);
        let more: Seq<Edge> = match items[k - 1].node {
            ItemKind::Rule(r) => lit_edges(o, r.head.pred@, agg_head(r.head.args@), r.body@, r.body@.len()),
            _ => Seq::empty(),
        };
        if let ItemKind::Rule(r) = items[k - 1].node {
            assert(rule_declared(items, items[k - 1].node));
            lemma_lit_edges_in(o, r.head.pred@, agg_head(r.head.args@), r.body@, r.body@.len(), items);
        }
        let e = edges_upto(items, o, k);
        assert(e == prev + more);
        assert forall|x: int| 0 <= x < e.len() implies (#[trigger] e[x]).0 < o.len() && e[x].1 < o.len() by {
            if x < prev.len() {
                assert(e[x] == prev[x]);
            } else {
                assert(e[x] == more[x - prev.len()]);
            }
        }
    }
}


/// The errors of the declaration and stratification checks: the declaration
/// errors if any; else, for an unstratifiable graph, the predicate the
/// stratification settles on last with the largest stratum; else the table
/// errors.
pub open spec fn strata_errors(p: Program) -> Seq<DiagV> {
    let o = order_of(p);
    let n = o.len();
    let e = edges_of(p);
    if decl_errors(p).len() > 0 {
        decl_errors(p)
    } else if !stratifiable(n, e) {
        let bad = last_argmax(passes(n, e, (n + 1) as nat), n);
        seq![(UNSTRATIFIABLE, msg_unstratifiable(o[bad]), decl_info(p.items@, p.items@.len(), o[bad]).unwrap().2)]
    } else {
        table_upto(p.items@, o, e, n)
    }
}

pub open spec fn strings_v(v: Seq<String>) -> Seq<Seq<char>> {
    v.map_values(|x: String| x@)
}

/// The first index of `name` among the recorded declarations.
fn decl_index(declared: &Vec<(String, usize)>, name: &str) -> (r: Option<usize>)
    ensures
        match r {
            Some(e) => e < declared@.len() && declared@[e as int].0@ == name@ && forall|j: int| 0 <= j < e ==> (#[trigger] declared@[j]).0@ != name@,
            None => forall|j: int| 0 <= j < declared@.len() ==> (#[trigger] declared@[j]).0@ != name@,
        },
{
    let mut i: usize = 0;
    while i < declared.len()
        invariant
            i <= declared@.len(),
            forall|j: int| 0 <= j < i ==> (#[trigger] declared@[j]).0@ != name@,
        decreases declared@.len() - i,
    {
        if same_text(declared[i].0.as_str(), name) {
            return Some(i);
        }
        i = i + 1;
    }
    None
}

/// `index_of` over the recorded declarations' names.
fn order_index(declared: &Vec<(String, usize)>, name: &str) -> (r: usize)
    ensures
        r == index_of(names_v(declared@), name@),
{
    let ghost o = names_v(declared@);
    let mut i: usize = declared.len();
    while i > 0
        invariant
            i <= declared@.len(),
            o == names_v(declared@),
            index_of(o, name@) == index_upto(o, name@, i as nat),
        decreases i,
    {
        assert(o[i - 1] == declared@[i - 1].0@);
        if same_text(declared[i - 1].0.as_str(), name) {
            return i - 1;
        }
        i = i - 1;
    }
    0
}

fn text_conflict_sig(name: &str, n: usize, a: Annotation, pn: usize, pa: Annotation) -> (s: String)
    ensures
        s@ == msg_conflict_sig(name@, n as nat, a, pn as nat, pa),
{
    let mut s = String::new();
    s.append("predicate `");
    s.append(name);
    s.append("` is redeclared with a conflicting signature (arity ");
    push_decimal(&mut s, n as u64);
    s.append(" : ");
    push_ann(&mut s, a);
    s.append(", was arity ");
    push_decimal(&mut s, pn as u64);
    s.append(" : ");
    push_ann(&mut s, pa);
    s.append(")");
    assert(s@ =~= msg_conflict_sig(name@, n as nat, a, pn as nat, pa));
    s
}

/// Check a program's declarations, its stratification and its table cells;
/// on success, the declared predicates in order with their least strata.
pub fn check_strata(program: &Program) -> (r: Result<Strata, Vec<Diagnostic>>)
    requires
        (program.items@.len() + 1) * (edges_of(*program).len() + 1) < u32::MAX,
    ensures
        r is Ok <==> strata_errors(*program).len() == 0,
        r matches Err(d) ==> diags_v(d@) == strata_errors(*program),
        r matches Ok(st) ==> {
            let o = order_of(*program);
            let e = edges_of(*program);
            &&& strings_v(st.order@) == o
            &&& respects(o.len(), e, ints(st.stratum@))
            &&& forall|t: Seq<int>, u: int| #![trigger respects(o.len(), e, t), st.stratum@[u]]
                respects(o.len(), e, t) && 0 <= u < o.len() ==> st.stratum@[u] <= t[u]
            &&& st.num_strata == if o.len() == 0 { 1 } else { max_upto(ints(st.stratum@), o.len()) + 1 }
        },
{
    let items = &program.items;
    let mut diags: Vec<Diagnostic> = Vec::new();
    let mut declared: Vec<(String, usize)> = Vec::new();
    let mut infos: Vec<(Annotation, Span)> = Vec::new();
    let mut k: usize = 0;
    assert(diags_v(diags@) =~= Seq::<DiagV>::empty());
    assert(names_v(declared@) =~= Seq::<Seq<char>>::empty());
    while k < items.len()
        invariant
            k <= items@.len(),
            records(items@, k as nat, declared@),
            infos@.len() == declared@.len(),
            forall|i: int| 0 <= i < declared@.len() ==> decl_info(items@, k as nat, (#[trigger] declared@[i]).0@)
                == Some((declared@[i].1 as nat, infos@[i].0, infos@[i].1)),
            names_v(declared@) == order_upto(items@, k as nat),
            diags_v(diags@) == sigs_upto(items@, k as nat),
        decreases items@.len() - k,
    {
        let ghost dv0 = diags_v(diags@);
        let ghost dc0 = declared@;
        let ghost if0 = infos@;
        let span = items[k].span;
        if let ItemKind::Predicate(p) = &items[k].node {
            let arity = p.sig.args.len();
            let ann = p.sig.annotation;
            proof {
                assert(items@[k as int].node == ItemKind::Predicate(*p));
                lemma_info_arity(items@, k as nat, p.name@);
                lemma_info_arity(items@, (k + 1) as nat, p.name@);
            }
            match decl_index(&declared, p.name.as_str()) {
                Some(e) => {
                    let (pn, pa) = (declared[e].1, infos[e].0);
                    assert(decl_info(items@, k as nat, p.name@) == Some((pn as nat, pa, infos@[e as int].1)));
                    if pn != arity || pa != ann {
                        let m = text_conflict_sig(p.name.as_str(), arity, ann, pn, pa);
                        diags.push(diag(CONFLICTING_DECLARATION, m, span));
                    }
                    proof {
                        assert(diags_v(diags@) =~= dv0 + sig_diags(items@, k as int));
                        assert forall|name: Seq<char>| decl_info(items@, (k + 1) as nat, name) == decl_info(items@, k as nat, name) by {
                            if name != p.name@ {
                            }
                        }
                        assert forall|name: Seq<char>| decl_arity(items@, (k + 1) as nat, name) == decl_arity(items@, k as nat, name) by {
                            lemma_info_arity(items@, k as nat, name);
                            lemma_info_arity(items@, (k + 1) as nat, name);
                        }
                        assert(order_upto(items@, (k + 1) as nat) == order_upto(items@, k as nat));
                        assert forall|i: int| 0 <= i < declared@.len() implies decl_arity(items@, (k + 1) as nat, (#[trigger] declared@[i]).0@) == Some(declared@[i].1 as nat) by {
                            assert(decl_arity(items@, k as nat, declared@[i].0@) == Some(declared@[i].1 as nat));
                        }
                        assert forall|name: Seq<char>| #[trigger] decl_arity(items@, (k + 1) as nat, name) is Some implies exists|i: int| 0 <= i < declared@.len() && (#[trigger] declared@[i]).0@ == name by {
                            assert(decl_arity(items@, k as nat, name) is Some);
                        }
                    }
                },
                None => {
                    assert(forall|i: int| 0 <= i < declared@.len() ==> (#[trigger] declared@[i]).0@ != p.name@);
                    proof {
                        lemma_lookup(items@, k as nat, declared@, p.name@, None);
                    }
                    declared.push((p.name.clone(), arity));
                    infos.push((ann, span));
                    proof {
                        assert(decl_info(items@, k as nat, p.name@) is None);
                        assert(sig_diags(items@, k as int) =~= Seq::<DiagV>::empty());
                        assert(diags_v(diags@) =~= dv0 + sig_diags(items@, k as int));
                        assert(names_v(declared@) =~= names_v(dc0).push(p.name@));
                        assert forall|i: int| 0 <= i < declared@.len() implies decl_info(items@, (k + 1) as nat, (#[trigger] declared@[i]).0@)
                            == Some((declared@[i].1 as nat, infos@[i].0, infos@[i].1)) by {
                            if i < dc0.len() {
                                assert(declared@[i] == dc0[i] && infos@[i] == if0[i]);
                            }
                        }
                        assert forall|i: int, j: int| 0 <= i < j < declared@.len() implies (#[trigger] declared@[i]).0@ != (#[trigger] declared@[j]).0@ by {
                            if j < dc0.len() {
                                assert(declared@[i] == dc0[i] && declared@[j] == dc0[j]);
                            } else {
                                assert(declared@[i] == dc0[i]);
                            }
                        }
                        assert forall|i: int| 0 <= i < declared@.len() implies decl_arity(items@, (k + 1) as nat, (#[trigger] declared@[i]).0@) == Some(declared@[i].1 as nat) by {
                            lemma_info_arity(items@, (k + 1) as nat, declared@[i].0@);
                        }
                        assert forall|name: Seq<char>| #[trigger] decl_arity(items@, (k + 1) as nat, name) is Some implies exists|i: int| 0 <= i < declared@.len() && (#[trigger] declared@[i]).0@ == name by {
                            lemma_info_arity(items@, k as nat, name);
                            lemma_info_arity(items@, (k + 1) as nat, name);
                            if decl_arity(items@, k as nat, name) is Some {
                                let i = choose|i: int| 0 <= i < dc0.len() && (#[trigger] dc0[i]).0@ == name;
                                assert(declared@[i] == dc0[i]);
                            } else {
                                assert(declared@[declared@.len() - 1].0@ == name);
                            }
                        }
                    }
                },
            }
        } else {
            proof {
                assert(sig_diags(items@, k as int) =~= Seq::<DiagV>::empty());
                assert(diags_v(diags@) =~= dv0 + sig_diags(items@, k as int));
                assert forall|name: Seq<char>| decl_info(items@, (k + 1) as nat, name) == decl_info(items@, k as nat, name) by {
                    match items@[k as int].node {
                        ItemKind::Predicate(_) => { assert(false); },
                        _ => {},
                    }
                }
                assert forall|name: Seq<char>| decl_arity(items@, (k + 1) as nat, name) == decl_arity(items@, k as nat, name) by {
                    lemma_info_arity(items@, k as nat, name);
                    lemma_info_arity(items@, (k + 1) as nat, name);
                }
                assert(order_upto(items@, (k + 1) as nat) == order_upto(items@, k as nat)) by {
                    match items@[k as int].node {
                        ItemKind::Predicate(_) => { assert(false); },
                        _ => {},
                    }
                }
                assert forall|i: int| 0 <= i < declared@.len() implies decl_arity(items@, (k + 1) as nat, (#[trigger] declared@[i]).0@) == Some(declared@[i].1 as nat) by {
                    assert(decl_arity(items@, k as nat, declared@[i].0@) == Some(declared@[i].1 as nat));
                }
                assert forall|name: Seq<char>| #[trigger] decl_arity(items@, (k + 1) as nat, name) is Some implies exists|i: int| 0 <= i < declared@.len() && (#[trigger] declared@[i]).0@ == name by {
                    assert(decl_arity(items@, k as nat, name) is Some);
                }
            }
        }
        k = k + 1;
    }
    let ghost phase1 = diags_v(diags@);
    let mut reported: Vec<String> = Vec::new();
    assert(names(reported@) =~= Set::<Seq<char>>::empty());
    assert(diags_v(diags@) =~= phase1 + useds_upto(items@, 0).0);
    let mut k: usize = 0;
    while k < items.len()
        invariant
            k <= items@.len(),
            records(items@, items@.len(), declared@),
            phase1 == sigs_upto(items@, items@.len()),
            diags_v(diags@) == phase1 + useds_upto(items@, k as nat).0,
            names(reported@) == useds_upto(items@, k as nat).1,
        decreases items@.len() - k,
    {
        let ghost dv0 = diags_v(diags@);
        let ghost rs0 = names(reported@);
        let span = items[k].span;
        match &items[k].node {
            ItemKind::Rule(r) => {
                check_atom(items, &declared, &mut reported, &r.head, span, &mut diags);
                let mut j: usize = 0;
                let ghost d_head = diags_v(diags@);
                let ghost r_head = names(reported@);
                assert(d_head =~= d_head + body_diags(items@, r.body@, 0, span, r_head).0);
                while j < r.body.len()
                    invariant
                        j <= r.body@.len(),
                        records(items@, items@.len(), declared@),
                        diags_v(diags@) == d_head + body_diags(items@, r.body@, j as nat, span, r_head).0,
                        names(reported@) == body_diags(items@, r.body@, j as nat, span, r_head).1,
                    decreases r.body@.len() - j,
                {
                    let a = match &r.body[j] {
                        Literal::Pos(a) => a,
                        Literal::Neg(a) => a,
                    };
                    assert(*a == crate::check::asp_decls::lit_atom(r.body@[j as int]));
                    check_atom(items, &declared, &mut reported, a, span, &mut diags);
                    proof {
                        let (bd, br) = body_diags(items@, r.body@, j as nat, span, r_head);
                        let (ad, ar) = atom_diags(items@, *a, span, br);
                        assert(diags_v(diags@) =~= d_head + (bd + ad));
                    }
                    j = j + 1;
                }
                proof {
                    assert(items@[k as int].node == ItemKind::Rule(*r));
                    let (ud, ur) = used_diags(items@, k as int, rs0);
                    assert(diags_v(diags@) =~= dv0 + ud);
                }
            },
            ItemKind::Fact(f) => {
                check_atom(items, &declared, &mut reported, &f.atom, span, &mut diags);
                proof {
                    assert(items@[k as int].node == ItemKind::Fact(*f));
                }
            },
            ItemKind::Query(q) => {
                check_atom(items, &declared, &mut reported, &q.atom, span, &mut diags);
                proof {
                    assert(items@[k as int].node == ItemKind::Query(*q));
                }
            },
            _ => {
                proof {
                    assert(used_diags(items@, k as int, rs0).0 =~= Seq::<DiagV>::empty());
                    assert(diags_v(diags@) =~= dv0 + used_diags(items@, k as int, rs0).0);
                }
            },
        }
        proof {
            assert(phase1 + useds_upto(items@, (k + 1) as nat).0 =~= (phase1 + useds_upto(items@, k as nat).0) + used_diags(items@, k as int, rs0).0);
        }
        k = k + 1;
    }
    if diags.len() > 0 {
        return Err(diags);
    }
    let ghost o = order_of(*program);
    assert(names_v(declared@) == o);
    // the dependency edges
    let mut edges: Vec<Edge> = Vec::new();
    let mut k: usize = 0;
    assert(edges@ =~= edges_upto(items@, o, 0));
    while k < items.len()
        invariant
            k <= items@.len(),
            o == order_of(*program),
            names_v(declared@) == o,
            edges@ == edges_upto(items@, o, k as nat),
        decreases items@.len() - k,
    {
        if let ItemKind::Rule(r) = &items[k].node {
            let h = order_index(&declared, r.head.pred.as_str());
            let mut agg = false;
            let mut q: usize = 0;
            while q < r.head.args.len()
                invariant
                    q <= r.head.args@.len(),
                    agg == exists|i: int| 0 <= i < q && #[trigger] r.head.args@[i] is Agg,
                decreases r.head.args@.len() - q,
            {
                if let Term::Agg { .. } = &r.head.args[q] {
                    agg = true;
                }
                q = q + 1;
            }
            assert(agg == agg_head(r.head.args@));
            let ghost e0 = edges@;
            let mut j: usize = 0;
            assert(edges@ =~= e0 + lit_edges(o, r.head.pred@, agg, r.body@, 0));
            while j < r.body.len()
                invariant
                    j <= r.body@.len(),
                    names_v(declared@) == o,
                    h == index_of(o, r.head.pred@),
                    edges@ == e0 + lit_edges(o, r.head.pred@, agg, r.body@, j as nat),
                decreases r.body@.len() - j,
            {
                let (a, neg) = match &r.body[j] {
                    Literal::Pos(a) => (a, false),
                    Literal::Neg(a) => (a, true),
                };
                let b = order_index(&declared, a.pred.as_str());
                edges.push((h, b, neg || agg));
                assert(edges@ =~= e0 + lit_edges(o, r.head.pred@, agg, r.body@, (j + 1) as nat));
                j = j + 1;
            }
            proof {
                assert(items@[k as int].node == ItemKind::Rule(*r));
                assert(edges@ =~= edges_upto(items@, o, (k + 1) as nat));
            }
        } else {
            proof {
                assert(edges@ =~= edges_upto(items@, o, (k + 1) as nat)) by {
                    match items@[k as int].node {
                        ItemKind::Rule(_) => { assert(false); },
                        _ => {},
                    }
                }
            }
        }
        k = k + 1;
    }
    let ghost e = edges@;
    assert(e == edges_of(*program));
    let n = declared.len();
    proof {
        assert(decl_errors(*program).len() == 0);
        lemma_edges_in(items@, items@.len());
        lemma_order_len(items@, items@.len());
        assert((n + 1) * e.len() <= (items@.len() + 1) * (e.len() + 1)) by (nonlinear_arith)
            requires n <= items@.len();
        assert(items@.len() + 1 <= (items@.len() + 1) * (e.len() + 1)) by (nonlinear_arith);
        lemma_stratify_fits(n as nat, e);
    }
    let (stratum, num) = match stratify(n, edges.as_slice()) {
        Ok(x) => x,
        Err(bad) => {
            proof {
                if n == 0 {
                    assert(e.len() == 0) by {
                        if e.len() > 0 {
                            assert(e[0].0 < 0);
                        }
                    }
                    assert(respects(0, e, Seq::<int>::empty()));
                }
                lemma_argmax_lt(passes(n as nat, e, (n + 1) as nat), n as nat);
            }
            let m = text2("predicate `", declared[bad].0.as_str(), "` depends on its own negation/aggregation through a cycle");
            let d = vec![diag(UNSTRATIFIABLE, m, infos[bad].1)];
            proof {
                assert(o[bad as int] == declared@[bad as int].0@);
                assert(diags_v(d@) =~= strata_errors(*program));
            }
            return Err(d);
        },
    };
    // the table of annotation and recursion
    let rec = recursive_preds(n, edges.as_slice());
    let mut i: usize = 0;
    assert(diags_v(diags@) =~= table_upto(items@, o, e, 0));
    while i < n
        invariant
            i <= n,
            n == declared@.len(),
            infos@.len() == n,
            rec@.len() == n,
            forall|u: int| 0 <= u < n ==> rec@[u] == recursive(e, u),
            names_v(declared@) == o,
            forall|x: int| 0 <= x < declared@.len() ==> decl_info(items@, items@.len(), (#[trigger] declared@[x]).0@)
                == Some((declared@[x].1 as nat, infos@[x].0, infos@[x].1)),
            diags_v(diags@) == table_upto(items@, o, e, i as nat),
        decreases n - i,
    {
        let ghost dv0 = diags_v(diags@);
        let name = declared[i].0.as_str();
        let (ann, span) = infos[i];
        assert(o[i as int] == name@);
        assert(decl_info(items@, items@.len(), o[i as int]) == Some((declared@[i as int].1 as nat, ann, span)));
        match ann {
            Annotation::Prov => {
                if rec[i] {
                    let m = text2("recursive probabilistic provenance `", name, "` is forbidden exactly; annotate it `Prov_k` for a top-k lower bound");
                    diags.push(diag(TABLE_2_4_FORBIDDEN, m, span));
                }
            },
            Annotation::ProvK { k: b } => {
                if b == 0 {
                    let m = text2("`Prov_k(0)` on `", name, "` keeps no proofs; the bound must be ≥ 1");
                    diags.push(diag(NOT_EXECUTABLE, m, span));
                }
            },
            _ => {},
        }
        assert(diags_v(diags@) =~= table_upto(items@, o, e, (i + 1) as nat));
        i = i + 1;
    }
    if diags.len() > 0 {
        return Err(diags);
    }
    let mut order: Vec<String> = Vec::new();
    let mut i: usize = 0;
    while i < n
        invariant
            i <= n,
            n == declared@.len(),
            strings_v(order@) == names_v(declared@).take(i as int),
        decreases n - i,
    {
        let ghost o0 = order@;
        let nm = declared[i].0.clone();
        assert(nm@ == names_v(declared@)[i as int]);
        order.push(nm);
        assert(order@ == o0.push(nm));
        assert(strings_v(order@) =~= strings_v(o0).push(nm@));
        assert(strings_v(order@) =~= names_v(declared@).take(i + 1));
        i = i + 1;
    }
    assert(names_v(declared@).take(n as int) =~= names_v(declared@));
    Ok(Strata { order, stratum, num_strata: num })
}

} // verus!
