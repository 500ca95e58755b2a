//! Range restriction (safety) of a rule: every variable of its head and of
//! its negated literals occurs in a positive body literal.
use vstd::prelude::*;
use crate::check::asp_decls::{diag, diags_v, has_name, names, text2, DiagV};
use crate::check::codes::NOT_RANGE_RESTRICTED;
use crate::diag::{Diagnostic, Span};
use crate::front::ir::{Atom, Literal, Rule, Term};

verus! {

/// The variables a term mentions, in order, also inside compound terms.
pub open spec fn term_vars(t: Term) -> Seq<Seq<char>>
    decreases t, 1nat,
{
    match t {
        Term::Var { name } => seq![name@],
        Term::Agg { var, .. } => seq![var@],
        Term::Compound { args, .. } => terms_vars(args@),
        _ => Seq::empty(),
    }
}

pub open spec fn terms_vars(ts: Seq<Term>) -> Seq<Seq<char>>
    decreases ts, 0nat,
{
    if ts.len() == 0 {
        Seq::empty()
    } else {
        terms_vars(ts.drop_last()) + term_vars(ts.last())
    }
}

pub open spec fn atom_vars(a: Atom) -> Seq<Seq<char>> {
    terms_vars(a.args@)
}

/// The variables of the positive literals among the first `k`.
pub open spec fn pos_vars_upto(body: Seq<Literal>, k: nat) -> Seq<Seq<char>>
    decreases k,
{
    if k == 0 {
        Seq::empty()
    } else {
        pos_vars_upto(body, (k - 1) as nat) + match body[k - 1] {
            Literal::Pos(a) => atom_vars(a),
            Literal::Neg(_) => Seq::empty(),
        }
    }
}

pub open spec fn msg_unbound(v: Seq<char>) -> Seq<char> {
    "variable `"@ + v + "` is not bound by a positive body literal"@
}

/// One error per occurrence, among the first `k` variables, of a variable
/// outside `pos`.
pub open spec fn unbound_upto(vars: Seq<Seq<char>>, pos: Set<Seq<char>>, span: Span, k: nat) -> Seq<DiagV>
    decreases k,
{
    if k == 0 {
        Seq::empty()
    } else {
        unbound_upto(vars, pos, span, (k - 1) as nat) + if pos.contains(vars[k - 1]) {
            Seq::empty()
        } else {
            seq![(NOT_RANGE_RESTRICTED, msg_unbound(vars[k - 1]), span)]
        }
    }
}

/// The variables of the negated literals among the first `k`.
pub open spec fn neg_vars_upto(body: Seq<Literal>, k: nat) -> Seq<Seq<char>>
    decreases k,
{
    if k == 0 {
        Seq::empty()
    } else {
        neg_vars_upto(body, (k - 1) as nat) + match body[k - 1] {
            Literal::Neg(a) => atom_vars(a),
            Literal::Pos(_) => Seq::empty(),
        }
    }
}

/// The range-restriction errors of a rule: each occurrence of a head
/// variable, then of a negated literal's variable, that no positive body
/// literal mentions.
pub open spec fn range_diags(r: Rule, span: Span) -> Seq<DiagV> {
    let pos = pos_vars_upto(r.body@, r.body@.len()).to_set();
    let hv = atom_vars(r.head);
    let nv = neg_vars_upto(r.body@, r.body@.len());
    unbound_upto(hv, pos, span, hv.len()) + unbound_upto(nv, pos, span, nv.len())
}

pub open spec fn names_v(v: Seq<String>) -> Seq<Seq<char>> {
    v.map_values(|s: String| s@)
}

/// Append the variables of a term.
fn term_vars_into(t: &Term, out: &mut Vec<String>)
    ensures
        names_v(final(out)@) == names_v(old(out)@) + term_vars(*t),
    decreases t,
{
    let ghost o0 = names_v(out@);
    match t {
        Term::Var { name } => {
            out.push(name.clone());
            assert(names_v(out@) =~= o0 + term_vars(*t));
        },
        Term::Agg { var, .. } => {
            out.push(var.clone());
            assert(names_v(out@) =~= o0 + term_vars(*t));
        },
        Term::Compound { args, .. } => {
            terms_vars_into(args, out);
        },
        _ => {
            assert(names_v(out@) =~= o0 + term_vars(*t));
        },
    }
}

pub(crate) fn terms_vars_into(ts: &Vec<Term>, out: &mut Vec<String>)
    ensures
        names_v(final(out)@) == names_v(old(out)@) + terms_vars(ts@),
    decreases ts,
{
    let ghost o0 = names_v(out@);
    let mut i: usize = 0;
    assert(terms_vars(ts@.take(0)) =~= Seq::<Seq<char>>::empty());
    assert(names_v(out@) =~= o0 + terms_vars(ts@.take(0)));
    while i < ts.len()
        invariant
            i <= ts@.len(),
            names_v(out@) == o0 + terms_vars(ts@.take(i as int)),
        decreases ts@.len() - i,
    {
        assert(ts@.take(i + 1).drop_last() =~= ts@.take(i as int));
        assert(ts@.take(i + 1).last() == ts@[i as int]);
        assert(decreases_to!(ts => ts@[i as int]));
        let ghost before = names_v(out@);
        term_vars_into(&ts[i], out);
        assert(names_v(out@) =~= o0 + terms_vars(ts@.take(i + 1)));
        i = i + 1;
    }
    assert(ts@.take(ts@.len() as int) =~= ts@);
}

proof fn lemma_names_set(v: Seq<String>)
    ensures
        names(v) == names_v(v).to_set(),
{
    assert forall|n: Seq<char>| names(v).contains(n) <==> names_v(v).to_set().contains(n) by {
        if names(v).contains(n) {
            let i = choose|i: int| 0 <= i < v.len() && (#[trigger] v[i])@ == n;
            assert(names_v(v)[i] == n);
        }
        if names_v(v).to_set().contains(n) {
            let i = choose|i: int| 0 <= i < names_v(v).len() && names_v(v)[i] == n;
            assert(v[i]@ == n);
        }
    }
    assert(names(v) =~= names_v(v).to_set());
}

/// Report each variable occurrence among `vars` outside `pos`.
fn report_unbound(vars: &Vec<String>, pos: &Vec<String>, span: Span, diags: &mut Vec<Diagnostic>)
    ensures
        diags_v(final(diags)@) == diags_v(old(diags)@) + unbound_upto(names_v(vars@), names_v(pos@).to_set(), span, vars@.len() as nat),
{
    let ghost d0 = diags_v(diags@);
    let ghost vv = names_v(vars@);
    let ghost pp = names_v(pos@).to_set();
    proof { lemma_names_set(pos@); }
    let mut i: usize = 0;
    assert(diags_v(diags@) =~= d0 + unbound_upto(vv, pp, span, 0));
    while i < vars.len()
        invariant
            i <= vars@.len(),
            vv == names_v(vars@),
            pp == names_v(pos@).to_set(),
            names(pos@) == pp,
            diags_v(diags@) == d0 + unbound_upto(vv, pp, span, i as nat),
        decreases vars@.len() - i,
    {
        assert(vv[i as int] == vars@[i as int]@);
        if !has_name(pos, vars[i].as_str()) {
            let m = text2("variable `", vars[i].as_str(), "` is not bound by a positive body literal");
            let ghost before = diags_v(diags@);
            let dg = diag(NOT_RANGE_RESTRICTED, m, span);
            assert(m@ == msg_unbound(vv[i as int]));
            assert(!pp.contains(vv[i as int]));
            diags.push(dg);
            assert(diags_v(diags@) =~= before.push((NOT_RANGE_RESTRICTED, msg_unbound(vv[i as int]), span)));
            assert(unbound_upto(vv, pp, span, (i + 1) as nat) == unbound_upto(vv, pp, span, i as nat) + seq![(NOT_RANGE_RESTRICTED, msg_unbound(vv[i as int]), span)]);
            assert(diags_v(diags@) =~= d0 + unbound_upto(vv, pp, span, (i + 1) as nat));
        } else {
            assert(diags_v(diags@) =~= d0 + unbound_upto(vv, pp, span, (i + 1) as nat));
        }
        i = i + 1;
    }
}

/// Every head variable and every negated literal's variable must occur in a
/// positive body literal; each occurrence that does not is reported.
pub fn check_range_restriction(r: &Rule, span: Span, diags: &mut Vec<Diagnostic>)
    ensures
        diags_v(final(diags)@) == diags_v(old(diags)@) + range_diags(*r, span),
{
    let mut pos: Vec<String> = Vec::new();
    let mut neg: Vec<String> = Vec::new();
    let mut k: usize = 0;
    assert(names_v(pos@) =~= pos_vars_upto(r.body@, 0));
    assert(names_v(neg@) =~= neg_vars_upto(r.body@, 0));
    while k < r.body.len()
        invariant
            k <= r.body@.len(),
            names_v(pos@) == pos_vars_upto(r.body@, k as nat),
            names_v(neg@) == neg_vars_upto(r.body@, k as nat),
        decreases r.body@.len() - k,
    {
        match &r.body[k] {
            Literal::Pos(a) => {
                terms_vars_into(&a.args, &mut pos);
                assert(names_v(neg@) =~= neg_vars_upto(r.body@, (k + 1) as nat));
            },
            Literal::Neg(a) => {
                terms_vars_into(&a.args, &mut neg);
                assert(names_v(pos@) =~= pos_vars_upto(r.body@, (k + 1) as nat));
            },
        }
        k = k + 1;
    }
    let mut head: Vec<String> = Vec::new();
    terms_vars_into(&r.head.args, &mut head);
    assert(names_v(head@) =~= atom_vars(r.head));
    let ghost d0 = diags_v(diags@);
    report_unbound(&head, &pos, span, diags);
    let ghost d1 = diags_v(diags@);
    report_unbound(&neg, &pos, span, diags);
    assert(diags_v(diags@) =~= d0 + range_diags(*r, span));
}

} // verus!
