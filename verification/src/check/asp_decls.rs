//! The declaration discipline of an `@asp` program: every predicate used is
//! declared, with the arity it is used at, and declared once; and the
//! constructs stable-model semantics cannot mean (annotated, non-ground or
//! compound facts, queries, `input`, neural predicates) are refused by name.
use vstd::prelude::*;
use crate::check::codes::{ARITY_MISMATCH, ASP_UNSUPPORTED, CONFLICTING_DECLARATION, NON_GROUND_FACT, UNDECLARED_PRED};
use crate::diag::{DiagCode, Diagnostic, Span};
use crate::front::ir::{Atom, Item, ItemKind, Literal, Program, Term};
use crate::text::{dec, push_decimal, same_text};

verus! {

/// A diagnostic by content: code, message, span.
pub type DiagV = (u32, Seq<char>, Span);

pub open spec fn diags_v(d: Seq<Diagnostic>) -> Seq<DiagV> {
    d.map_values(|x: Diagnostic| (x.code.0, x.message@, x.span))
}

pub open spec fn msg_conflict(name: Seq<char>, arity: nat, prev: nat) -> Seq<char> {
    "predicate `"@ + name + "` is redeclared with arity "@ + dec(arity) + " (was "@ + dec(prev) + ")"@
}

pub open spec fn msg_neural(name: Seq<char>) -> Seq<char> {
    "`neural "@ + name + "` is not supported under `@asp`: stable-model semantics has no soft facts"@
}

pub open spec fn msg_undeclared(name: Seq<char>) -> Seq<char> {
    "predicate `"@ + name + "` is used but never declared"@
}

pub open spec fn msg_arity(name: Seq<char>, arity: nat, found: nat) -> Seq<char> {
    "predicate `"@ + name + "` expects "@ + dec(arity) + " argument(s), found "@ + dec(found)
}

pub open spec fn msg_annotated(name: Seq<char>) -> Seq<char> {
    "`:: "@ + name + "(...)` — fact annotations (weights/probabilities) are not supported under `@asp`; stable-model facts are certain"@
}

pub open spec fn msg_non_ground(name: Seq<char>) -> Seq<char> {
    "fact `"@ + name + "` contains a non-ground term"@
}

pub open spec fn msg_compound(name: Seq<char>) -> Seq<char> {
    "fact `"@ + name + "` carries a compound term; `@terms` values are not supported under `@asp`"@
}

pub open spec fn msg_query(name: Seq<char>) -> Seq<char> {
    "`? "@ + name + "(...)` — queries are not supported under `@asp`; the run enumerates the stable models instead"@
}

pub open spec fn msg_input(name: Seq<char>) -> Seq<char> {
    "`input "@ + name + " from ...` is not supported under `@asp`; inline the facts"@
}

/// The arity of the first declaration of `name` among the first `k` items.
pub open spec fn decl_arity(items: Seq<Item>, k: nat, name: Seq<char>) -> Option<nat>
    decreases k,
{
    if k == 0 {
        None
    } else {
        match decl_arity(items, (k - 1) as nat, name) {
            Some(a) => Some(a),
            None => match items[k - 1].node {
                ItemKind::Predicate(p) => if p.name@ == name { Some(p.sig.args@.len()) } else { None },
                _ => None,
            },
        }
    }
}

/// The declaration errors of item `i`: a redeclaration at another arity, a
/// neural predicate.
pub open spec fn decl_diags(items: Seq<Item>, i: int) -> Seq<DiagV> {
    match items[i].node {
        ItemKind::Predicate(p) => {
            let n = p.sig.args@.len();
            let conflict: Seq<DiagV> = match decl_arity(items, i as nat, p.name@) {
                Some(prev) => if prev != n { seq![(CONFLICTING_DECLARATION, msg_conflict(p.name@, n, prev), items[i].span)] } else { Seq::empty() },
                None => Seq::empty(),
            };
            let neural: Seq<DiagV> = if p.neural is Some { seq![(ASP_UNSUPPORTED, msg_neural(p.name@), items[i].span)] } else { Seq::empty() };
            conflict + neural
        },
        _ => Seq::empty(),
    }
}

pub open spec fn decls_upto(items: Seq<Item>, k: nat) -> Seq<DiagV>
    decreases k,
{
    if k == 0 { Seq::empty() } else { decls_upto(items, (k - 1) as nat) + decl_diags(items, k - 1) }
}

/// An atom against the declarations: an undeclared predicate is reported
/// once, an arity mismatch each time.
pub open spec fn atom_diags(items: Seq<Item>, a: Atom, span: Span, reported: Set<Seq<char>>) -> (Seq<DiagV>, Set<Seq<char>>) {
    match decl_arity(items, items.len(), a.pred@) {
        None => if reported.contains(a.pred@) {
            (Seq::empty(), reported)
        } else {
            (seq![(UNDECLARED_PRED, msg_undeclared(a.pred@), span)], reported.insert(a.pred@))
        },
        Some(n) => if n != a.args@.len() {
            (seq![(ARITY_MISMATCH, msg_arity(a.pred@, n, a.args@.len()), span)], reported)
        } else {
            (Seq::empty(), reported)
        },
    }
}

pub open spec fn lit_atom(l: Literal) -> Atom {
    match l {
        Literal::Pos(a) => a,
        Literal::Neg(a) => a,
    }
}

/// The first `k` body literals' atoms, checked in order.
pub open spec fn body_diags(items: Seq<Item>, body: Seq<Literal>, k: nat, span: Span, reported: Set<Seq<char>>) -> (Seq<DiagV>, Set<Seq<char>>)
    decreases k,
{
    if k == 0 {
        (Seq::empty(), reported)
    } else {
        let (d, r) = body_diags(items, body, (k - 1) as nat, span, reported);
        let (d2, r2) = atom_diags(items, lit_atom(body[k - 1]), span, r);
        (d + d2, r2)
    }
}

/// The first fact argument among the first `k` that is not a constant or an
/// integer: `true` for a variable or an aggregate, `false` for a compound.
pub open spec fn first_bad_arg(args: Seq<Term>, k: nat) -> Option<bool>
    decreases k,
{
    if k == 0 {
        None
    } else {
        match first_bad_arg(args, (k - 1) as nat) {
            Some(b) => Some(b),
            None => match args[k - 1] {
                Term::Var { .. } => Some(true),
                Term::Agg { .. } => Some(true),
                Term::Compound { .. } => Some(false),
                _ => None,
            },
        }
    }
}

/// The use errors of item `i`, given the undeclared predicates reported
/// so far.
pub open spec fn use_diags(items: Seq<Item>, i: int, reported: Set<Seq<char>>) -> (Seq<DiagV>, Set<Seq<char>>) {
    let span = items[i].span;
    match items[i].node {
        ItemKind::Rule(r) => {
            let (d1, r1) = atom_diags(items, r.head, span, reported);
            let (d2, r2) = body_diags(items, r.body@, r.body@.len(), span, r1);
            (d1 + d2, r2)
        },
        ItemKind::Fact(f) => {
            let (d1, r1) = atom_diags(items, f.atom, span, reported);
            let ann: Seq<DiagV> = if f.weight is Some || f.prob is Some {
                seq![(ASP_UNSUPPORTED, msg_annotated(f.atom.pred@), span)]
            } else {
                Seq::empty()
            };
            let args: Seq<DiagV> = match first_bad_arg(f.atom.args@, f.atom.args@.len()) {
                Some(true) => seq![(NON_GROUND_FACT, msg_non_ground(f.atom.pred@), span)],
                Some(false) => seq![(ASP_UNSUPPORTED, msg_compound(f.atom.pred@), span)],
                None => Seq::empty(),
            };
            (d1 + ann + args, r1)
        },
        ItemKind::Query(q) => (seq![(ASP_UNSUPPORTED, msg_query(q.atom.pred@), span)], reported),
        ItemKind::Input(inp) => (seq![(ASP_UNSUPPORTED, msg_input(inp.pred@), span)], reported),
        _ => (Seq::empty(), reported),
    }
}

pub open spec fn uses_upto(items: Seq<Item>, k: nat) -> (Seq<DiagV>, Set<Seq<char>>)
    decreases k,
{
    if k == 0 {
        (Seq::empty(), Set::empty())
    } else {
        let (d, r) = uses_upto(items, (k - 1) as nat);
        let (d2, r2) = use_diags(items, k - 1, r);
        (d + d2, r2)
    }
}

/// Every error the `@asp` declaration check reports, in order: first the
/// declarations', then each item's uses.
pub open spec fn asp_decl_errors(p: Program) -> Seq<DiagV> {
    decls_upto(p.items@, p.items@.len()) + uses_upto(p.items@, p.items@.len()).0
}

pub fn diag(code: u32, message: String, span: Span) -> (d: Diagnostic)
    ensures
        d.code.0 == code && d.message@ == message@ && d.span == span,
{
    Diagnostic { code: DiagCode(code), message, span }
}

pub fn text2(a: &str, b: &str, c: &str) -> (s: String)
    ensures
        s@ == a@ + b@ + c@,
{
    let mut s = String::new();
    s.append(a);
    s.append(b);
    s.append(c);
    assert(s@ =~= a@ + b@ + c@);
    s
}

/// Look up the first declaration's arity among the recorded ones.
pub fn declared_arity(declared: &Vec<(String, usize)>, name: &str) -> (r: Option<usize>)
    ensures
        match r {
            Some(a) => exists|i: int| 0 <= i < declared@.len() && (#[trigger] declared@[i]).0@ == name@ && declared@[i].1 == a
                && forall|j: int| 0 <= j < i ==> (#[trigger] declared@[j]).0@ != name@,
            None => forall|i: int| 0 <= i < declared@.len() ==> (#[trigger] declared@[i]).0@ != name@,
        },
{
    let mut i: usize = 0;
    while i < declared.len()
        invariant
            i <= declared@.len(),
            forall|j: int| 0 <= j < i ==> (#[trigger] declared@[j]).0@ != name@,
        decreases declared@.len() - i,
    {
        if same_text(declared[i].0.as_str(), name) {
            return Some(declared[i].1);
        }
        i = i + 1;
    }
    None
}

/// `declared` records, for each predicate declared among the first `k` items,
/// its first declaration's arity, each name once.
pub open spec fn records(items: Seq<Item>, k: nat, declared: Seq<(String, usize)>) -> bool {
    &&& forall|i: int, j: int| 0 <= i < j < declared.len() ==> (#[trigger] declared[i]).0@ != (#[trigger] declared[j]).0@
    &&& forall|i: int| 0 <= i < declared.len() ==> decl_arity(items, k, (#[trigger] declared[i]).0@) == Some(declared[i].1 as nat)
    &&& forall|name: Seq<char>| #[trigger] decl_arity(items, k, name) is Some ==> exists|i: int| 0 <= i < declared.len() && (#[trigger] declared[i]).0@ == name
}

pub proof fn lemma_lookup(items: Seq<Item>, k: nat, declared: Seq<(String, usize)>, name: Seq<char>, r: Option<usize>)
    requires
        records(items, k, declared),
        match r {
            Some(a) => exists|i: int| 0 <= i < declared.len() && (#[trigger] declared[i]).0@ == name && declared[i].1 == a
                && forall|j: int| 0 <= j < i ==> (#[trigger] declared[j]).0@ != name,
            None => forall|i: int| 0 <= i < declared.len() ==> (#[trigger] declared[i]).0@ != name,
        },
    ensures
        decl_arity(items, k, name) == match r { Some(a) => Some(a as nat), None => None::<nat> },
{
    match r {
        Some(a) => {
            let i = choose|i: int| 0 <= i < declared.len() && (#[trigger] declared[i]).0@ == name && declared[i].1 == a
                && forall|j: int| 0 <= j < i ==> (#[trigger] declared[j]).0@ != name;
            assert(decl_arity(items, k, declared[i].0@) == Some(declared[i].1 as nat));
        },
        None => {
            if decl_arity(items, k, name) is Some {
                let i = choose|i: int| 0 <= i < declared.len() && (#[trigger] declared[i]).0@ == name;
            }
        },
    }
}


fn text_conflict(name: &str, arity: usize, prev: usize) -> (s: String)
    ensures
        s@ == msg_conflict(name@, arity as nat, prev as nat),
{
    let mut s = String::new();
    s.append("predicate `");
    s.append(name);
    s.append("` is redeclared with arity ");
    push_decimal(&mut s, arity as u64);
    s.append(" (was ");
    push_decimal(&mut s, prev as u64);
    s.append(")");
    assert(s@ =~= msg_conflict(name@, arity as nat, prev as nat));
    s
}

fn text_arity(name: &str, arity: usize, found: usize) -> (s: String)
    ensures
        s@ == msg_arity(name@, arity as nat, found as nat),
{
    let mut s = String::new();
    s.append("predicate `");
    s.append(name);
    s.append("` expects ");
    push_decimal(&mut s, arity as u64);
    s.append(" argument(s), found ");
    push_decimal(&mut s, found as u64);
    assert(s@ =~= msg_arity(name@, arity as nat, found as nat));
    s
}

/// The names recorded.
pub open spec fn names(r: Seq<String>) -> Set<Seq<char>> {
    Set::new(|n: Seq<char>| exists|i: int| 0 <= i < r.len() && (#[trigger] r[i])@ == n)
}

pub fn has_name(r: &Vec<String>, name: &str) -> (b: bool)
    ensures
        b == names(r@).contains(name@),
{
    let mut i: usize = 0;
    while i < r.len()
        invariant
            i <= r@.len(),
            forall|j: int| 0 <= j < i ==> (#[trigger] r@[j])@ != name@,
        decreases r@.len() - i,
    {
        if same_text(r[i].as_str(), name) {
            assert(r@[i as int]@ == name@);
            return true;
        }
        i = i + 1;
    }
    false
}

/// Check one atom against the declarations.
pub fn check_atom(items: &Vec<Item>, declared: &Vec<(String, usize)>, reported: &mut Vec<String>, a: &Atom, span: Span, diags: &mut Vec<Diagnostic>)
    requires
        records(items@, items@.len(), declared@),
    ensures
        ({
            let (d, r) = atom_diags(items@, *a, span, names(old(reported)@));
            &&& diags_v(final(diags)@) == diags_v(old(diags)@) + d
            &&& names(final(reported)@) == r
        }),
{
    let ghost r0 = names(reported@);
    let ghost dv0 = diags_v(diags@);
    let found = declared_arity(declared, a.pred.as_str());
    proof { lemma_lookup(items@, items@.len(), declared@, a.pred@, found); }
    match found {
        None => {
            if !has_name(reported, a.pred.as_str()) {
                let m = text2("predicate `", a.pred.as_str(), "` is used but never declared");
                diags.push(diag(UNDECLARED_PRED, m, span));
                let ghost rv = reported@;
                reported.push(a.pred.clone());
                proof {
                    assert(names(reported@) =~= r0.insert(a.pred@)) by {
                        assert forall|n: Seq<char>| names(reported@).contains(n) <==> r0.insert(a.pred@).contains(n) by {
                            if names(reported@).contains(n) {
                                let i = choose|i: int| 0 <= i < reported@.len() && (#[trigger] reported@[i])@ == n;
                                if i < rv.len() {
                                    assert(rv[i] == reported@[i]);
                                }
                            }
                            if r0.contains(n) {
                                let i = choose|i: int| 0 <= i < rv.len() && (#[trigger] rv[i])@ == n;
                                assert(reported@[i] == rv[i]);
                            }
                            if n == a.pred@ {
                                assert(reported@[reported@.len() - 1]@ == n);
                            }
                        }
                    }
                    assert(diags_v(diags@) =~= dv0 + seq![(UNDECLARED_PRED, msg_undeclared(a.pred@), span)]);
                }
            } else {
                assert(diags_v(diags@) =~= dv0 + Seq::<DiagV>::empty());
            }
        },
        Some(n) => {
            if n != a.args.len() {
                let m = text_arity(a.pred.as_str(), n, a.args.len());
                diags.push(diag(ARITY_MISMATCH, m, span));
                assert(diags_v(diags@) =~= dv0 + seq![(ARITY_MISMATCH, msg_arity(a.pred@, n as nat, a.args@.len()), span)]);
            } else {
                assert(diags_v(diags@) =~= dv0 + Seq::<DiagV>::empty());
            }
        },
    }
}

/// Check an `@asp` program's declarations: every predicate used is declared
/// with the arity it is used at and declared at one arity only, and no
/// construct stable-model semantics cannot mean occurs. The errors, if any,
/// in the order of the items.
pub fn check_asp_declarations(program: &Program) -> (r: Result<(), Vec<Diagnostic>>)
    ensures
        r is Ok <==> asp_decl_errors(*program).len() == 0,
        r matches Err(d) ==> diags_v(d@) == asp_decl_errors(*program),
{
    let items = &program.items;
    let mut diags: Vec<Diagnostic> = Vec::new();
    let mut declared: Vec<(String, usize)> = Vec::new();
    let mut k: usize = 0;
    assert(diags_v(diags@) =~= Seq::<DiagV>::empty());
    while k < items.len()
        invariant
            k <= items@.len(),
            records(items@, k as nat, declared@),
            diags_v(diags@) == decls_upto(items@, k as nat),
        decreases items@.len() - k,
    {
        let ghost dv0 = diags_v(diags@);
        let ghost dc0 = declared@;
        let span = items[k].span;
        if let ItemKind::Predicate(p) = &items[k].node {
            let arity = p.sig.args.len();
            let prev = declared_arity(&declared, p.name.as_str());
            proof { lemma_lookup(items@, k as nat, declared@, p.name@, prev); }
            let ghost d_mid = diags_v(diags@);
            match prev {
                Some(pa) => {
                    if pa != arity {
                        let m = text_conflict(p.name.as_str(), arity, pa);
                        diags.push(diag(CONFLICTING_DECLARATION, m, span));
                    }
                },
                None => {
                    declared.push((p.name.clone(), arity));
                },
            }
            let ghost d_conf = diags_v(diags@);
            if p.neural.is_some() {
                let m = text2("`neural ", p.name.as_str(), "` is not supported under `@asp`: stable-model semantics has no soft facts");
                diags.push(diag(ASP_UNSUPPORTED, m, span));
            }
            proof {
                assert(items@[k as int].node == ItemKind::Predicate(*p));
                let dd = decl_diags(items@, k as int);
                assert(diags_v(diags@) =~= dv0 + dd);
                // the records now cover item k
                assert forall|i: int, j: int| 0 <= i < j < declared@.len() implies (#[trigger] declared@[i]).0@ != (#[trigger] declared@[j]).0@ by {
                    if j < dc0.len() {
                        assert(declared@[i] == dc0[i] && declared@[j] == dc0[j]);
                    } else {
                        assert(declared@[i] == dc0[i]);
                    }
                }
                assert forall|i: int| 0 <= i < declared@.len() implies decl_arity(items@, (k + 1) as nat, (#[trigger] declared@[i]).0@) == Some(declared@[i].1 as nat) by {
                    if i < dc0.len() {
                        assert(declared@[i] == dc0[i]);
                    }
                }
                assert forall|name: Seq<char>| #[trigger] decl_arity(items@, (k + 1) as nat, name) is Some implies exists|i: int| 0 <= i < declared@.len() && (#[trigger] declared@[i]).0@ == name by {
                    if decl_arity(items@, k as nat, name) is Some {
                        let i = choose|i: int| 0 <= i < dc0.len() && (#[trigger] dc0[i]).0@ == name;
                        assert(declared@[i] == dc0[i]);
                    } else {
                        assert(name == p.name@);
                        assert(prev is None);
                        assert(declared@[declared@.len() - 1].0@ == name);
                    }
                }
                assert(records(items@, (k + 1) as nat, declared@));
            }
        } else {
            proof {
                assert(decl_diags(items@, k as int) =~= Seq::<DiagV>::empty());
                assert(diags_v(diags@) =~= dv0 + decl_diags(items@, k as int));
                assert forall|name: Seq<char>| decl_arity(items@, (k + 1) as nat, name) == decl_arity(items@, k as nat, name) by {
                    match items@[k as int].node {
                        ItemKind::Predicate(_) => { assert(false); },
                        _ => {},
                    }
                }
                assert forall|i: int| 0 <= i < declared@.len() implies decl_arity(items@, (k + 1) as nat, (#[trigger] declared@[i]).0@) == Some(declared@[i].1 as nat) by {
                    assert(decl_arity(items@, k as nat, declared@[i].0@) == Some(declared@[i].1 as nat));
                }
                assert forall|name: Seq<char>| #[trigger] decl_arity(items@, (k + 1) as nat, name) is Some implies exists|i: int| 0 <= i < declared@.len() && (#[trigger] declared@[i]).0@ == name by {
                    assert(decl_arity(items@, k as nat, name) is Some);
                }
                assert(records(items@, (k + 1) as nat, declared@));
            }
        }
        k = k + 1;
    }
    let ghost phase1 = diags_v(diags@);
    let mut reported: Vec<String> = Vec::new();
    assert(names(reported@) =~= Set::<Seq<char>>::empty());
    assert(diags_v(diags@) =~= phase1 + uses_upto(items@, 0).0);
    let mut k: usize = 0;
    while k < items.len()
        invariant
            k <= items@.len(),
            records(items@, items@.len(), declared@),
            phase1 == decls_upto(items@, items@.len()),
            diags_v(diags@) == phase1 + uses_upto(items@, k as nat).0,
            names(reported@) == uses_upto(items@, k as nat).1,
        decreases items@.len() - k,
    {
        let ghost dv0 = diags_v(diags@);
        let ghost rs0 = names(reported@);
        let span = items[k].span;
        match &items[k].node {
            ItemKind::Rule(r) => {
                check_atom(items, &declared, &mut reported, &r.head, span, &mut diags);
                let mut j: usize = 0;
                let ghost d_head = diags_v(diags@);
                let ghost r_head = names(reported@);
                assert(d_head =~= d_head + body_diags(items@, r.body@, 0, span, r_head).0);
                while j < r.body.len()
                    invariant
                        j <= r.body@.len(),
                        records(items@, items@.len(), declared@),
                        diags_v(diags@) == d_head + body_diags(items@, r.body@, j as nat, span, r_head).0,
                        names(reported@) == body_diags(items@, r.body@, j as nat, span, r_head).1,
                    decreases r.body@.len() - j,
                {
                    let a = match &r.body[j] {
                        Literal::Pos(a) => a,
                        Literal::Neg(a) => a,
                    };
                    assert(*a == lit_atom(r.body@[j as int]));
                    let ghost dj = diags_v(diags@);
                    check_atom(items, &declared, &mut reported, a, span, &mut diags);
                    proof {
                        let (bd, br) = body_diags(items@, r.body@, j as nat, span, r_head);
                        let (ad, ar) = atom_diags(items@, *a, span, br);
                        assert(diags_v(diags@) =~= d_head + (bd + ad));
                    }
                    j = j + 1;
                }
                proof {
                    assert(items@[k as int].node == ItemKind::Rule(*r));
                    let (ud, ur) = use_diags(items@, k as int, rs0);
                    let (hd, hr) = atom_diags(items@, r.head, span, rs0);
                    assert(d_head == dv0 + hd);
                    assert(r_head == hr);
                    assert(diags_v(diags@) =~= dv0 + ud);
                }
            },
            ItemKind::Fact(f) => {
                check_atom(items, &declared, &mut reported, &f.atom, span, &mut diags);
                let ghost d1 = diags_v(diags@);
                let ghost ann: Seq<DiagV> = if f.weight is Some || f.prob is Some {
                    seq![(ASP_UNSUPPORTED, msg_annotated(f.atom.pred@), span)]
                } else {
                    Seq::empty()
                };
                if f.weight.is_some() || f.prob.is_some() {
                    let m = text2("`:: ", f.atom.pred.as_str(), "(...)` — fact annotations (weights/probabilities) are not supported under `@asp`; stable-model facts are certain");
                    diags.push(diag(ASP_UNSUPPORTED, m, span));
                }
                let ghost d2 = diags_v(diags@);
                assert(d2 =~= d1 + ann);
                let mut q: usize = 0;
                let mut bad: Option<bool> = None;
                while q < f.atom.args.len() && bad.is_none()
                    invariant
                        q <= f.atom.args@.len(),
                        bad is None ==> first_bad_arg(f.atom.args@, q as nat) is None,
                        bad is Some ==> bad == first_bad_arg(f.atom.args@, f.atom.args@.len()),
                    decreases f.atom.args@.len() - q,
                {
                    match &f.atom.args[q] {
                        Term::Var { .. } => {
                            bad = Some(true);
                            proof { lemma_bad_arg_stays(f.atom.args@, (q + 1) as nat, f.atom.args@.len()); }
                        },
                        Term::Agg { .. } => {
                            bad = Some(true);
                            proof { lemma_bad_arg_stays(f.atom.args@, (q + 1) as nat, f.atom.args@.len()); }
                        },
                        Term::Compound { .. } => {
                            bad = Some(false);
                            proof { lemma_bad_arg_stays(f.atom.args@, (q + 1) as nat, f.atom.args@.len()); }
                        },
                        _ => {},
                    }
                    q = q + 1;
                }
                assert(bad == first_bad_arg(f.atom.args@, f.atom.args@.len()));
                let ghost argd: Seq<DiagV> = match first_bad_arg(f.atom.args@, f.atom.args@.len()) {
                    Some(true) => seq![(NON_GROUND_FACT, msg_non_ground(f.atom.pred@), span)],
                    Some(false) => seq![(ASP_UNSUPPORTED, msg_compound(f.atom.pred@), span)],
                    None => Seq::empty(),
                };
                match bad {
                    Some(true) => {
                        let m = text2("fact `", f.atom.pred.as_str(), "` contains a non-ground term");
                        diags.push(diag(NON_GROUND_FACT, m, span));
                    },
                    Some(false) => {
                        let m = text2("fact `", f.atom.pred.as_str(), "` carries a compound term; `@terms` values are not supported under `@asp`");
                        diags.push(diag(ASP_UNSUPPORTED, m, span));
                    },
                    None => {},
                }
                assert(diags_v(diags@) =~= d2 + argd);
                proof {
                    assert(items@[k as int].node == ItemKind::Fact(*f));
                    let (ud, ur) = use_diags(items@, k as int, rs0);
                    assert(diags_v(diags@) =~= dv0 + ud);
                }
            },
            ItemKind::Query(qy) => {
                let m = text2("`? ", qy.atom.pred.as_str(), "(...)` — queries are not supported under `@asp`; the run enumerates the stable models instead");
                diags.push(diag(ASP_UNSUPPORTED, m, span));
                proof {
                    assert(items@[k as int].node == ItemKind::Query(*qy));
                    assert(diags_v(diags@) =~= dv0 + use_diags(items@, k as int, rs0).0);
                }
            },
            ItemKind::Input(inp) => {
                let m = text2("`input ", inp.pred.as_str(), " from ...` is not supported under `@asp`; inline the facts");
                diags.push(diag(ASP_UNSUPPORTED, m, span));
                proof {
                    assert(items@[k as int].node == ItemKind::Input(*inp));
                    assert(diags_v(diags@) =~= dv0 + use_diags(items@, k as int, rs0).0);
                }
            },
            _ => {
                proof {
                    assert(use_diags(items@, k as int, rs0).0 =~= Seq::<DiagV>::empty());
                    assert(diags_v(diags@) =~= dv0 + use_diags(items@, k as int, rs0).0);
                }
            },
        }
        proof {
            assert(phase1 + uses_upto(items@, (k + 1) as nat).0 =~= (phase1 + uses_upto(items@, k as nat).0) + use_diags(items@, k as int, rs0).0);
        }
        k = k + 1;
    }
    if diags.len() == 0 {
        Ok(())
    } else {
        Err(diags)
    }
}

proof fn lemma_bad_arg_stays(args: Seq<Term>, k: nat, n: nat)
    requires
        k <= n,
        first_bad_arg(args, k) is Some,
    ensures
        first_bad_arg(args, n) == first_bad_arg(args, k),
    decreases n - k,
{
    if k < n {
        lemma_bad_arg_stays(args, k, (n - 1) as nat);
    }
}

/// The atom's predicate is declared, at the atom's arity.
pub open spec fn atom_ok(items: Seq<Item>, a: Atom) -> bool {
    decl_arity(items, items.len(), a.pred@) == Some(a.args@.len())
}

/// What stable-model semantics can mean of item `i`: a declaration that is
/// not neural and keeps the arity of any earlier declaration of its name; a
/// rule whose atoms are declared at their arities; a fact on a declared
/// predicate at its arity, without `::` annotation, whose arguments are
/// constants and integers; no query and no `input`.
pub open spec fn asp_item_ok(items: Seq<Item>, i: int) -> bool {
    match items[i].node {
        ItemKind::Predicate(p) => p.neural is None && match decl_arity(items, i as nat, p.name@) {
            Some(prev) => prev == p.sig.args@.len(),
            None => true,
        },
        ItemKind::Rule(r) => atom_ok(items, r.head) && forall|j: int| 0 <= j < r.body@.len() ==> atom_ok(items, lit_atom(#[trigger] r.body@[j])),
        ItemKind::Fact(f) => atom_ok(items, f.atom) && f.weight is None && f.prob is None
            && forall|j: int| 0 <= j < f.atom.args@.len() ==> (#[trigger] f.atom.args@[j] is Const || f.atom.args@[j] is Int),
        ItemKind::Query(_) => false,
        ItemKind::Input(_) => false,
        _ => true,
    }
}

proof fn lemma_bad_arg_none(args: Seq<Term>, k: nat)
    requires
        k <= args.len(),
    ensures
        first_bad_arg(args, k) is None <==> forall|j: int| 0 <= j < k ==> (#[trigger] args[j] is Const || args[j] is Int),
    decreases k,
{
    if k > 0 {
        lemma_bad_arg_none(args, (k - 1) as nat);
        if first_bad_arg(args, (k - 1) as nat) is Some {
            let w = choose|j: int| 0 <= j < k - 1 && !(#[trigger] args[j] is Const || args[j] is Int);
            assert(0 <= w < k && !(args[w] is Const || args[w] is Int));
        }
    }
}

proof fn lemma_body_clean(items: Seq<Item>, body: Seq<Literal>, k: nat, span: Span, rep: Set<Seq<char>>)
    requires
        k <= body.len(),
    ensures
        (body_diags(items, body, k, span, rep).0.len() == 0 && rep.len() == 0 && rep.finite())
            ==> (body_diags(items, body, k, span, rep).1 == rep && forall|j: int| 0 <= j < k ==> atom_ok(items, lit_atom(#[trigger] body[j]))),
        (forall|j: int| 0 <= j < k ==> atom_ok(items, lit_atom(#[trigger] body[j])))
            ==> body_diags(items, body, k, span, rep) == (Seq::<DiagV>::empty(), rep),
    decreases k,
{
    if k > 0 {
        lemma_body_clean(items, body, (k - 1) as nat, span, rep);
        let (d, r) = body_diags(items, body, (k - 1) as nat, span, rep);
        let (d2, r2) = atom_diags(items, lit_atom(body[k - 1]), span, r);
        if body_diags(items, body, k, span, rep).0.len() == 0 && rep.len() == 0 && rep.finite() {
            assert(d.len() == 0 && d2.len() == 0);
            assert(r == rep);
            assert(!rep.contains(lit_atom(body[k - 1]).pred@));
        }
        if forall|j: int| 0 <= j < k ==> atom_ok(items, lit_atom(#[trigger] body[j])) {
            assert(atom_ok(items, lit_atom(body[k - 1])));
            assert forall|j: int| 0 <= j < k - 1 implies atom_ok(items, lit_atom(#[trigger] body[j])) by {
                assert(atom_ok(items, lit_atom(body[j])));
            }
        }
    }
}

proof fn lemma_uses_clean(items: Seq<Item>, k: nat)
    requires
        k <= items.len(),
    ensures
        uses_upto(items, k).0.len() == 0 ==> uses_upto(items, k).1 == Set::<Seq<char>>::empty(),
        (uses_upto(items, k).0.len() == 0 && decls_upto(items, k).len() == 0) <==> forall|i: int| 0 <= i < k ==> asp_item_ok(items, i),
    decreases k,
{
    if k > 0 {
        let km = (k - 1) as nat;
        lemma_uses_clean(items, km);
        let (d, r) = uses_upto(items, km);
        let i = k - 1;
        let (d2, r2) = use_diags(items, i, r);
        let e = Set::<Seq<char>>::empty();
        let span = items[i].span;
        match items[i].node {
            ItemKind::Rule(rl) => {
                lemma_body_clean(items, rl.body@, rl.body@.len(), span, e);
                lemma_body_clean(items, rl.body@, rl.body@.len(), span, r);
            },
            ItemKind::Fact(f) => {
                lemma_bad_arg_none(f.atom.args@, f.atom.args@.len());
            },
            _ => {},
        }
        if uses_upto(items, k).0.len() == 0 && decls_upto(items, k).len() == 0 {
            assert(d.len() == 0 && d2.len() == 0);
            assert(decls_upto(items, km).len() == 0 && decl_diags(items, i).len() == 0);
            assert(r == e);
            match items[i].node {
                ItemKind::Rule(rl) => {
                    let (d1, r1) = atom_diags(items, rl.head, span, e);
                    assert(d1.len() == 0);
                    assert(r1 == e);
                },
                ItemKind::Fact(f) => {
                    let (d1, r1) = atom_diags(items, f.atom, span, e);
                    assert(d1.len() == 0);
                },
                _ => {},
            }
            assert(asp_item_ok(items, i));
            assert(forall|x: int| 0 <= x < k - 1 ==> asp_item_ok(items, x));
        }
        if forall|x: int| 0 <= x < k ==> asp_item_ok(items, x) {
            assert(forall|x: int| 0 <= x < k - 1 ==> asp_item_ok(items, x));
            assert(asp_item_ok(items, i));
            assert(d.len() == 0 && r == e);
            match items[i].node {
                ItemKind::Rule(rl) => {
                    let (d1, r1) = atom_diags(items, rl.head, span, e);
                    assert(d1.len() == 0 && r1 == e);
                },
                _ => {},
            }
            assert(d2.len() == 0);
            assert(uses_upto(items, k).0 =~= d + d2);
            assert(decls_upto(items, k) =~= decls_upto(items, km) + decl_diags(items, i));
        }
        if uses_upto(items, k).0.len() == 0 {
            assert(d.len() == 0 && d2.len() == 0);
            match items[i].node {
                ItemKind::Rule(rl) => {
                    let (d1, r1) = atom_diags(items, rl.head, span, e);
                    assert(d1.len() == 0 && r1 == e);
                },
                ItemKind::Fact(f) => {
                    let (d1, r1) = atom_diags(items, f.atom, span, e);
                    assert(d1.len() == 0);
                },
                _ => {},
            }
        }
    }
}

/// The `@asp` declaration check passes exactly when every item is one
/// stable-model semantics can mean (see `asp_item_ok`): each predicate used
/// is declared at the arity it is used at, no name is redeclared at another
/// arity, no declaration is neural, no fact is annotated or has a variable or
/// a compound argument, and there is no query and no `input`.
pub proof fn lemma_asp_check_passes_iff(p: Program)
    ensures
        asp_decl_errors(p).len() == 0 <==> forall|i: int| 0 <= i < p.items@.len() ==> asp_item_ok(p.items@, i),
{
    lemma_uses_clean(p.items@, p.items@.len());
}

/// Some diagnostic carries the code.
pub open spec fn has_code(ds: Seq<DiagV>, c: u32) -> bool {
    exists|x: int| 0 <= x < ds.len() && (#[trigger] ds[x]).0 == c
}

/// The atom's predicate is declared, but at another arity.
pub open spec fn atom_misfit(items: Seq<Item>, a: Atom) -> bool {
    decl_arity(items, items.len(), a.pred@) matches Some(n) && n != a.args@.len()
}

/// An earlier declaration of `name` has another arity than `n`.
pub open spec fn redeclared(items: Seq<Item>, i: int, name: Seq<char>, n: nat) -> bool {
    match decl_arity(items, i as nat, name) {
        Some(prev) => prev != n,
        None => false,
    }
}

/// The atoms item `i` uses.
pub open spec fn item_uses(items: Seq<Item>, i: int, a: Atom) -> bool {
    match items[i].node {
        ItemKind::Rule(r) => a == r.head || exists|j: int| 0 <= j < r.body@.len() && a == lit_atom(#[trigger] r.body@[j]),
        ItemKind::Fact(f) => a == f.atom,
        _ => false,
    }
}

/// Item `i` calls for code `c`: a neural declaration, an annotated fact, a
/// fact whose first non-constant argument is compound, a query or an `input`
/// for `ASP_UNSUPPORTED`; a fact whose first non-constant argument is a
/// variable for `NON_GROUND_FACT`; a redeclaration at another arity for
/// `CONFLICTING_DECLARATION`; a use of an undeclared predicate for
/// `UNDECLARED_PRED`; a use at another arity for `ARITY_MISMATCH`.
pub open spec fn calls_for(items: Seq<Item>, i: int, c: u32) -> bool {
    ||| (c == UNDECLARED_PRED && exists|a: Atom| #[trigger] item_uses(items, i, a) && decl_arity(items, items.len(), a.pred@) is None)
    ||| (c == ARITY_MISMATCH && exists|a: Atom| #[trigger] item_uses(items, i, a) && atom_misfit(items, a))
    ||| match items[i].node {
        ItemKind::Predicate(p) => {
            ||| (c == ASP_UNSUPPORTED && p.neural is Some)
            ||| (c == CONFLICTING_DECLARATION && redeclared(items, i, p.name@, p.sig.args@.len()))
        },
        ItemKind::Fact(f) => {
            ||| (c == ASP_UNSUPPORTED && (f.weight is Some || f.prob is Some))
            ||| (c == ASP_UNSUPPORTED && first_bad_arg(f.atom.args@, f.atom.args@.len()) == Some(false))
            ||| (c == NON_GROUND_FACT && first_bad_arg(f.atom.args@, f.atom.args@.len()) == Some(true))
        },
        ItemKind::Query(_) => c == ASP_UNSUPPORTED,
        ItemKind::Input(_) => c == ASP_UNSUPPORTED,
        _ => false,
    }
}

proof fn lemma_code_left(a: Seq<DiagV>, b: Seq<DiagV>, c: u32)
    ensures
        has_code(a, c) ==> has_code(a + b, c),
        has_code(b, c) ==> has_code(a + b, c),
{
    if has_code(a, c) {
        let x = choose|x: int| 0 <= x < a.len() && (#[trigger] a[x]).0 == c;
        assert((a + b)[x] == a[x]);
    }
    if has_code(b, c) {
        let x = choose|x: int| 0 <= x < b.len() && (#[trigger] b[x]).0 == c;
        assert((a + b)[a.len() + x] == b[x]);
    }
}

/// An atom's check: it reports a misfit, reports an undeclared predicate not
/// reported before, and only adds to the reported names when it reports.
proof fn lemma_atom_codes(items: Seq<Item>, a: Atom, span: Span, rep: Set<Seq<char>>)
    ensures
        rep.subset_of(atom_diags(items, a, span, rep).1),
        atom_diags(items, a, span, rep).1 == rep || has_code(atom_diags(items, a, span, rep).0, UNDECLARED_PRED),
        atom_misfit(items, a) ==> has_code(atom_diags(items, a, span, rep).0, ARITY_MISMATCH),
        decl_arity(items, items.len(), a.pred@) is None ==> atom_diags(items, a, span, rep).1.contains(a.pred@),
        decl_arity(items, items.len(), a.pred@) is None && !rep.contains(a.pred@) ==> has_code(atom_diags(items, a, span, rep).0, UNDECLARED_PRED),
{
    let d = atom_diags(items, a, span, rep).0;
    if d.len() > 0 {
        assert(d[0] == d[0]);
    }
}

proof fn lemma_body_codes(items: Seq<Item>, body: Seq<Literal>, k: nat, span: Span, rep: Set<Seq<char>>)
    requires
        k <= body.len(),
    ensures
        rep.subset_of(body_diags(items, body, k, span, rep).1),
        body_diags(items, body, k, span, rep).1 == rep || has_code(body_diags(items, body, k, span, rep).0, UNDECLARED_PRED),
        forall|j: int| 0 <= j < k && atom_misfit(items, lit_atom(#[trigger] body[j])) ==> has_code(body_diags(items, body, k, span, rep).0, ARITY_MISMATCH),
        forall|j: int| 0 <= j < k && decl_arity(items, items.len(), lit_atom(#[trigger] body[j]).pred@) is None ==> (rep.contains(lit_atom(body[j]).pred@)
            || has_code(body_diags(items, body, k, span, rep).0, UNDECLARED_PRED)),
    decreases k,
{
    if k > 0 {
        let km = (k - 1) as nat;
        lemma_body_codes(items, body, km, span, rep);
        let (d, r) = body_diags(items, body, km, span, rep);
        let a = lit_atom(body[k - 1]);
        lemma_atom_codes(items, a, span, r);
        let (d2, r2) = atom_diags(items, a, span, r);
        lemma_code_left(d, d2, UNDECLARED_PRED);
        lemma_code_left(d, d2, ARITY_MISMATCH);
        assert forall|j: int| 0 <= j < k && decl_arity(items, items.len(), lit_atom(#[trigger] body[j]).pred@) is None implies (rep.contains(lit_atom(body[j]).pred@)
            || has_code(d + d2, UNDECLARED_PRED)) by {
            if j == k - 1 {
                if !rep.contains(a.pred@) && r.contains(a.pred@) {
                    assert(r != rep);
                }
            }
        }
    }
}

proof fn lemma_uses_prefix(items: Seq<Item>, i: int, k: nat, c: u32)
    requires
        0 <= i < k <= items.len(),
        has_code(use_diags(items, i, uses_upto(items, i as nat).1).0, c),
    ensures
        has_code(uses_upto(items, k).0, c),
    decreases k,
{
    let (d, r) = uses_upto(items, (k - 1) as nat);
    let (d2, r2) = use_diags(items, k - 1, r);
    lemma_code_left(d, d2, c);
    if i < k - 1 {
        lemma_uses_prefix(items, i, (k - 1) as nat, c);
    }
}

proof fn lemma_decls_prefix(items: Seq<Item>, i: int, k: nat, c: u32)
    requires
        0 <= i < k <= items.len(),
        has_code(decl_diags(items, i), c),
    ensures
        has_code(decls_upto(items, k), c),
    decreases k,
{
    lemma_code_left(decls_upto(items, (k - 1) as nat), decl_diags(items, k - 1), c);
    if i < k - 1 {
        lemma_decls_prefix(items, i, (k - 1) as nat, c);
    }
}

/// The reported names only grow, and a name is in them only if an undeclared
/// predicate was reported.
proof fn lemma_reported(items: Seq<Item>, k: nat)
    requires
        k <= items.len(),
    ensures
        uses_upto(items, k).1 == Set::<Seq<char>>::empty() || has_code(uses_upto(items, k).0, UNDECLARED_PRED),
    decreases k,
{
    if k > 0 {
        let km = (k - 1) as nat;
        lemma_reported(items, km);
        let (d, r) = uses_upto(items, km);
        let (d2, r2) = use_diags(items, k - 1, r);
        lemma_code_left(d, d2, UNDECLARED_PRED);
        let span = items[k - 1].span;
        match items[k - 1].node {
            ItemKind::Rule(rl) => {
                lemma_atom_codes(items, rl.head, span, r);
                let (d1, r1) = atom_diags(items, rl.head, span, r);
                lemma_body_codes(items, rl.body@, rl.body@.len(), span, r1);
                let (db, rb) = body_diags(items, rl.body@, rl.body@.len(), span, r1);
                lemma_code_left(d1, db, UNDECLARED_PRED);
            },
            ItemKind::Fact(f) => {
                lemma_atom_codes(items, f.atom, span, r);
                let (d1, r1) = atom_diags(items, f.atom, span, r);
                let ann: Seq<DiagV> = if f.weight is Some || f.prob is Some {
                    seq![(ASP_UNSUPPORTED, msg_annotated(f.atom.pred@), span)]
                } else {
                    Seq::empty()
                };
                let args: Seq<DiagV> = match first_bad_arg(f.atom.args@, f.atom.args@.len()) {
                    Some(true) => seq![(NON_GROUND_FACT, msg_non_ground(f.atom.pred@), span)],
                    Some(false) => seq![(ASP_UNSUPPORTED, msg_compound(f.atom.pred@), span)],
                    None => Seq::empty(),
                };
                lemma_code_left(d1, ann, UNDECLARED_PRED);
                lemma_code_left(d1 + ann, args, UNDECLARED_PRED);
            },
            _ => {},
        }
    }
}

/// Each thing stable-model semantics cannot mean in an `@asp` program makes
/// the declaration check report its code (see `calls_for`).
pub proof fn lemma_asp_check_codes(p: Program, i: int, c: u32)
    requires
        0 <= i < p.items@.len(),
        calls_for(p.items@, i, c),
    ensures
        has_code(asp_decl_errors(p), c),
{
    let items = p.items@;
    let n = items.len();
    let r = uses_upto(items, i as nat).1;
    let span = items[i].span;
    lemma_reported(items, i as nat);
    lemma_code_left(decls_upto(items, n), uses_upto(items, n).0, c);
    let ud = use_diags(items, i, r).0;
    match items[i].node {
        ItemKind::Predicate(pd) => {
            let nn = pd.sig.args@.len();
            let conflict: Seq<DiagV> = match decl_arity(items, i as nat, pd.name@) {
                Some(prev) => if prev != nn { seq![(CONFLICTING_DECLARATION, msg_conflict(pd.name@, nn, prev), span)] } else { Seq::empty() },
                None => Seq::empty(),
            };
            let neural: Seq<DiagV> = if pd.neural is Some { seq![(ASP_UNSUPPORTED, msg_neural(pd.name@), span)] } else { Seq::empty() };
            lemma_code_left(conflict, neural, c);
            if c == ASP_UNSUPPORTED && pd.neural is Some {
                assert(neural[0].0 == c);
            }
            if c == CONFLICTING_DECLARATION && redeclared(items, i, pd.name@, nn) {
                assert(conflict[0].0 == c);
            }
            if has_code(decl_diags(items, i), c) {
                lemma_decls_prefix(items, i, n, c);
            }
        },
        _ => {},
    }
    match items[i].node {
        ItemKind::Rule(rl) => {
            lemma_atom_codes(items, rl.head, span, r);
            let (d1, r1) = atom_diags(items, rl.head, span, r);
            lemma_body_codes(items, rl.body@, rl.body@.len(), span, r1);
            let (db, rb) = body_diags(items, rl.body@, rl.body@.len(), span, r1);
            lemma_code_left(d1, db, c);
            if c == UNDECLARED_PRED || c == ARITY_MISMATCH {
                let a = choose|a: Atom| #[trigger] item_uses(items, i, a) && (if c == UNDECLARED_PRED { decl_arity(items, items.len(), a.pred@) is None } else { atom_misfit(items, a) });
                if a != rl.head {
                    let j = choose|j: int| 0 <= j < rl.body@.len() && a == lit_atom(#[trigger] rl.body@[j]);
                    assert(a == lit_atom(rl.body@[j]));
                }
                if c == UNDECLARED_PRED && !has_code(ud, c) {
                    assert(!has_code(d1, c) && !has_code(db, c));
                    assert(r1 == r);
                    assert(r.contains(a.pred@));
                    assert(has_code(uses_upto(items, i as nat).0, c));
                    lemma_uses_prefix_all(items, i as nat, n, c);
                }
            }
            if has_code(ud, c) {
                lemma_uses_prefix(items, i, n, c);
            }
        },
        ItemKind::Fact(f) => {
            lemma_atom_codes(items, f.atom, span, r);
            let (d1, r1) = atom_diags(items, f.atom, span, r);
            let ann: Seq<DiagV> = if f.weight is Some || f.prob is Some {
                seq![(ASP_UNSUPPORTED, msg_annotated(f.atom.pred@), span)]
            } else {
                Seq::empty()
            };
            let args: Seq<DiagV> = match first_bad_arg(f.atom.args@, f.atom.args@.len()) {
                Some(true) => seq![(NON_GROUND_FACT, msg_non_ground(f.atom.pred@), span)],
                Some(false) => seq![(ASP_UNSUPPORTED, msg_compound(f.atom.pred@), span)],
                None => Seq::empty(),
            };
            lemma_code_left(d1, ann, c);
            lemma_code_left(d1 + ann, args, c);
            if ann.len() > 0 {
                assert(ann[0].0 == ASP_UNSUPPORTED);
            }
            if args.len() > 0 {
                assert(args[0] == args[0]);
            }
            if c == UNDECLARED_PRED && decl_arity(items, items.len(), f.atom.pred@) is None && !has_code(ud, c) {
                assert(r.contains(f.atom.pred@));
                lemma_uses_prefix_all(items, i as nat, n, c);
            }
            if has_code(ud, c) {
                lemma_uses_prefix(items, i, n, c);
            }
        },
        ItemKind::Query(q) => {
            assert(ud[0].0 == ASP_UNSUPPORTED);
            lemma_uses_prefix(items, i, n, c);
        },
        ItemKind::Input(inp) => {
            assert(ud[0].0 == ASP_UNSUPPORTED);
            lemma_uses_prefix(items, i, n, c);
        },
        _ => {},
    }
}

proof fn lemma_uses_prefix_all(items: Seq<Item>, j: nat, k: nat, c: u32)
    requires
        j <= k <= items.len(),
        has_code(uses_upto(items, j).0, c),
    ensures
        has_code(uses_upto(items, k).0, c),
    decreases k - j,
{
    if j < k {
        lemma_uses_prefix_all(items, j, (k - 1) as nat, c);
        let (d, r) = uses_upto(items, (k - 1) as nat);
        let (d2, r2) = use_diags(items, k - 1, r);
        lemma_code_left(d, d2, c);
    }
}

} // verus!
