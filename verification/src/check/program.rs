//! The whole check of a program: its declarations and stratification, then,
//! rule by rule and fact by fact, range restriction, the flow of semiring
//! annotations from body to head, and the annotation and groundness of facts.
use vstd::prelude::*;
use crate::check::asp_decls::{diag, diags_v, text2, DiagV};
use crate::check::codes::{FACT_ANNOTATION_MISMATCH, NEURAL_FACT_NOT_SOFT, NON_GROUND_FACT, SEMIRING_CONFLICT};
use crate::check::range::{atom_vars, check_range_restriction, names_v, range_diags, terms_vars_into};
use crate::check::strata::{
    ann_text, check_strata, decl_info, edges_of, order_of, push_ann, strata_errors, strings_v, Strata,
};
use crate::check::{ints, max_upto, respects};
use crate::diag::{Diagnostic, Span};
use crate::front::ir::{Annotation, Fact, Item, ItemKind, Literal, Program, Rule};
use crate::text::same_text;

verus! {

/// The annotation `name` is first declared with.
pub open spec fn ann_decl(items: Seq<Item>, name: Seq<char>) -> Option<Annotation> {
    match decl_info(items, items.len(), name) {
        Some((_, a, _)) => Some(a),
        None => None,
    }
}

/// The item is a neural declaration of `name`.
pub open spec fn neural_item(it: Item, name: Seq<char>) -> bool {
    match it.node {
        ItemKind::Predicate(p) => p.name@ == name && p.neural is Some,
        _ => false,
    }
}

/// Some declaration of `name` is neural.
pub open spec fn neural_decl(items: Seq<Item>, name: Seq<char>) -> bool {
    exists|i: int| 0 <= i < items.len() && #[trigger] neural_item(items[i], name)
}

/// Annotation `b` may flow into `h`: `Bool ⊑ Trop`, `Bool ⊑ Prov ⊑ Prov_k`,
/// and each into itself; soft evidence never flows back into `Bool` or
/// `Trop`, and `Trop` and `Prov` are incomparable.
pub open spec fn coercible(b: Annotation, h: Annotation) -> bool {
    match (b, h) {
        (Annotation::Bool, _) => true,
        (Annotation::Trop, Annotation::Trop) => true,
        (Annotation::Prov, Annotation::Prov) => true,
        (Annotation::Prov, Annotation::ProvK { .. }) => true,
        (Annotation::ProvK { .. }, Annotation::ProvK { .. }) => true,
        _ => false,
    }
}

/// Whether annotation `b` may flow into `h`.
pub fn coercible_to(b: Annotation, h: Annotation) -> (r: bool)
    ensures
        r == coercible(b, h),
{
    match (b, h) {
        (Annotation::Bool, _) => true,
        (Annotation::Trop, Annotation::Trop) => true,
        (Annotation::Prov, Annotation::Prov) => true,
        (Annotation::Prov, Annotation::ProvK { .. }) => true,
        (Annotation::ProvK { .. }, Annotation::ProvK { .. }) => true,
        _ => false,
    }
}

pub open spec fn msg_semiring(bp: Seq<char>, ba: Annotation, hp: Seq<char>, ha: Annotation) -> Seq<char> {
    "`"@ + bp + "` ("@ + ann_text(ba) + ") cannot flow into `"@ + hp + "` ("@ + ann_text(ha) + "); use an explicit conversion"@
}

/// The semiring conflicts among the first `k` body literals of `r`: a
/// positive literal whose declared annotation cannot flow into the head's.
pub open spec fn semi_upto(items: Seq<Item>, r: Rule, span: Span, k: nat) -> Seq<DiagV>
    decreases k,
{
    if k == 0 {
        Seq::empty()
    } else {
        semi_upto(items, r, span, (k - 1) as nat) + match r.body@[k - 1] {
            Literal::Pos(a) => match (ann_decl(items, r.head.pred@), ann_decl(items, a.pred@)) {
                (Some(ha), Some(ba)) => if coercible(ba, ha) {
                    Seq::empty()
                } else {
                    seq![(SEMIRING_CONFLICT, msg_semiring(a.pred@, ba, r.head.pred@, ha), span)]
                },
                _ => Seq::empty(),
            },
            Literal::Neg(_) => Seq::empty(),
        }
    }
}

pub open spec fn msg_weight_not_trop(pred: Seq<char>, a: Annotation) -> Seq<char> {
    "the fact on `"@ + pred + "(...)` carries an integer (tropical) weight, but `"@ + pred + "` is declared "@ + ann_text(a)
        + "; a probability needs a decimal point (`0.5 ::`), a weight needs the predicate annotated `Trop`"@
}

pub open spec fn msg_prob_on_trop(p: Seq<char>, pred: Seq<char>) -> Seq<char> {
    "`"@ + p + " :: "@ + pred + "(...)` is a probability, but `"@ + pred + "` is declared `Trop`; a tropical weight is an integer (`5 ::`)"@
}

/// The position of the first `.` at or after `k`, or the length.
pub open spec fn dot_from(s: Seq<char>, k: nat) -> nat
    decreases s.len() - k,
{
    if k >= s.len() {
        s.len()
    } else if s[k as int] == '.' {
        k
    } else {
        dot_from(s, k + 1)
    }
}

/// A decimal numeral `digits[.digits]` whose value lies in `[0, 1]`: its
/// integer part is zero, or it is one with a zero fraction.
pub open spec fn prob_in_unit(s: Seq<char>) -> bool {
    let d = dot_from(s, 0) as int;
    ||| forall|i: int| 0 <= i < d ==> s[i] == '0'
    ||| {
        &&& d >= 1
        &&& s[d - 1] == '1'
        &&& forall|i: int| 0 <= i < d - 1 ==> s[i] == '0'
        &&& forall|i: int| d < i < s.len() ==> s[i] == '0'
    }
}

pub open spec fn msg_prob_range(p: Seq<char>, pred: Seq<char>) -> Seq<char> {
    "probability "@ + p + " on `"@ + pred + "(...)` is outside [0, 1]"@
}

pub open spec fn msg_trop_needs_weight(pred: Seq<char>) -> Seq<char> {
    "`"@ + pred + "` is declared `Trop`, so its facts must carry an integer weight (`5 :: "@ + pred + "(...)`)"@
}

pub open spec fn msg_fact_non_ground(pred: Seq<char>) -> Seq<char> {
    "fact `"@ + pred + "` contains a non-ground term"@
}

pub open spec fn msg_neural_fact(pred: Seq<char>) -> Seq<char> {
    "`"@ + pred + "` is a neural predicate; its facts are the model's soft outputs and must be probabilistic (`p :: "@ + pred
        + "(...)`)"@
}

/// The mismatch of a fact's `::` annotation with its predicate's: a weight
/// only on `Trop`, a probability never on `Trop`, and a `Trop` fact always
/// weighted.
pub open spec fn fact_ann_diags(items: Seq<Item>, f: Fact, span: Span) -> Seq<DiagV> {
    let pred = f.atom.pred@;
    match ann_decl(items, pred) {
        None => Seq::empty(),
        Some(a) => if f.weight is Some {
            if a is Trop { Seq::empty() } else { seq![(FACT_ANNOTATION_MISMATCH, msg_weight_not_trop(pred, a), span)] }
        } else if f.prob is Some {
            if a is Trop {
                seq![(FACT_ANNOTATION_MISMATCH, msg_prob_on_trop(f.prob->0@, pred), span)]
            } else if !prob_in_unit(f.prob->0@) {
                seq![(FACT_ANNOTATION_MISMATCH, msg_prob_range(f.prob->0@, pred), span)]
            } else {
                Seq::empty()
            }
        } else if a is Trop {
            seq![(FACT_ANNOTATION_MISMATCH, msg_trop_needs_weight(pred), span)]
        } else {
            Seq::empty()
        },
    }
}

/// The errors of a fact: its annotation, then its groundness, then a
/// certain fact on a neural predicate.
pub open spec fn fact_diags(items: Seq<Item>, f: Fact, span: Span) -> Seq<DiagV> {
    let pred = f.atom.pred@;
    if fact_ann_diags(items, f, span).len() > 0 {
        fact_ann_diags(items, f, span)
    } else if atom_vars(f.atom).len() > 0 {
        seq![(NON_GROUND_FACT, msg_fact_non_ground(pred), span)]
    } else if f.prob is None && neural_decl(items, pred) {
        seq![(NEURAL_FACT_NOT_SOFT, msg_neural_fact(pred), span)]
    } else {
        Seq::empty()
    }
}

/// The errors of item `i` after stratification.
pub open spec fn item_diags(items: Seq<Item>, i: int) -> Seq<DiagV> {
    match items[i].node {
        ItemKind::Rule(r) => range_diags(r, items[i].span) + semi_upto(items, r, items[i].span, r.body@.len()),
        ItemKind::Fact(f) => fact_diags(items, f, items[i].span),
        _ => Seq::empty(),
    }
}

pub open spec fn items_upto(items: Seq<Item>, k: nat) -> Seq<DiagV>
    decreases k,
{
    if k == 0 { Seq::empty() } else { items_upto(items, (k - 1) as nat) + item_diags(items, k - 1) }
}

/// Every error of a program, in the order they are reported: those of its
/// declarations and stratification if there are any, else those of its rules
/// and facts.
pub open spec fn program_errors(p: Program) -> Seq<DiagV> {
    if strata_errors(p).len() > 0 {
        strata_errors(p)
    } else {
        items_upto(p.items@, p.items@.len())
    }
}

/// The annotation `name` is first declared with.
fn decl_ann(items: &Vec<Item>, name: &str) -> (r: Option<Annotation>)
    ensures
        r == ann_decl(items@, name@),
{
    let mut found: Option<Annotation> = None;
    let mut k: usize = 0;
    while k < items.len()
        invariant
            k <= items@.len(),
            found == match decl_info(items@, k as nat, name@) {
                Some((_, a, _)) => Some(a),
                None => None::<Annotation>,
            },
        decreases items@.len() - k,
    {
        if found.is_none() {
            if let ItemKind::Predicate(p) = &items[k].node {
                if same_text(p.name.as_str(), name) {
                    found = Some(p.sig.annotation);
                }
            }
        }
        k = k + 1;
    }
    found
}

/// Whether some declaration of `name` is neural.
fn decl_neural(items: &Vec<Item>, name: &str) -> (r: bool)
    ensures
        r == neural_decl(items@, name@),
{
    let mut k: usize = 0;
    while k < items.len()
        invariant
            k <= items@.len(),
            forall|i: int| 0 <= i < k ==> !#[trigger] neural_item(items@[i], name@),
        decreases items@.len() - k,
    {
        if let ItemKind::Predicate(p) = &items[k].node {
            assert(items@[k as int].node == ItemKind::Predicate(*p));
            if p.neural.is_some() && same_text(p.name.as_str(), name) {
                assert(items@[k as int].node == ItemKind::Predicate(*p));
                assert(neural_item(items@[k as int], name@));
                return true;
            }
        }
        k = k + 1;
    }
    false
}

/// Whether a decimal numeral's value lies in `[0, 1]`.
fn in_unit(s: &str) -> (r: bool)
    ensures
        r == prob_in_unit(s@),
{
    let ghost v = s@;
    let n = s.unicode_len();
    let mut d: usize = 0;
    while d < n && s.get_char(d) != '.'
        invariant
            v == s@,
            d <= n,
            n == v.len(),
            dot_from(v, 0) == dot_from(v, d as nat),
        decreases n - d,
    {
        d = d + 1;
    }
    assert(d as nat == dot_from(v, 0));
    let mut i: usize = 0;
    let mut zero_int = true;
    while i < d
        invariant
            v == s@,
            i <= d <= n,
            n == v.len(),
            zero_int == forall|j: int| 0 <= j < i ==> v[j] == '0',
        decreases d - i,
    {
        if s.get_char(i) != '0' {
            zero_int = false;
        }
        i = i + 1;
    }
    if zero_int {
        return true;
    }
    if d == 0 || s.get_char(d - 1) != '1' {
        return false;
    }
    let mut i: usize = 0;
    let mut lead = true;
    while i < d - 1
        invariant
            v == s@,
            1 <= d <= n,
            i <= d - 1,
            n == v.len(),
            lead == forall|j: int| 0 <= j < i ==> v[j] == '0',
        decreases d - 1 - i,
    {
        if s.get_char(i) != '0' {
            lead = false;
        }
        i = i + 1;
    }
    let mut frac = true;
    if d < n {
        let mut i: usize = d + 1;
        while i < n
            invariant
                v == s@,
                d < i <= n,
                n == v.len(),
                frac == forall|j: int| d < j < i ==> v[j] == '0',
            decreases n - i,
        {
            if s.get_char(i) != '0' {
                frac = false;
            }
            i = i + 1;
        }
    }
    lead && frac
}

fn text_semiring(bp: &str, ba: Annotation, hp: &str, ha: Annotation) -> (s: String)
    ensures
        s@ == msg_semiring(bp@, ba, hp@, ha),
{
    let mut s = String::new();
    s.append("`");
    s.append(bp);
    s.append("` (");
    push_ann(&mut s, ba);
    s.append(") cannot flow into `");
    s.append(hp);
    s.append("` (");
    push_ann(&mut s, ha);
    s.append("); use an explicit conversion");
    assert(s@ =~= msg_semiring(bp@, ba, hp@, ha));
    s
}

/// Report each positive body literal of `r` whose declared annotation cannot
/// flow into the head's.
pub fn check_semirings(items: &Vec<Item>, r: &Rule, span: Span, diags: &mut Vec<Diagnostic>)
    ensures
        diags_v(final(diags)@) == diags_v(old(diags)@) + semi_upto(items@, *r, span, r.body@.len()),
{
    let ghost d0 = diags_v(diags@);
    let head = decl_ann(items, r.head.pred.as_str());
    let mut k: usize = 0;
    assert(diags_v(diags@) =~= d0 + semi_upto(items@, *r, span, 0));
    while k < r.body.len()
        invariant
            k <= r.body@.len(),
            head == ann_decl(items@, r.head.pred@),
            diags_v(diags@) == d0 + semi_upto(items@, *r, span, k as nat),
        decreases r.body@.len() - k,
    {
        let ghost dk = diags_v(diags@);
        if let Literal::Pos(a) = &r.body[k] {
            assert(r.body@[k as int] == Literal::Pos(*a));
            if let Some(ha) = head {
                if let Some(ba) = decl_ann(items, a.pred.as_str()) {
                    if !coercible_to(ba, ha) {
                        let m = text_semiring(a.pred.as_str(), ba, r.head.pred.as_str(), ha);
                        diags.push(diag(SEMIRING_CONFLICT, m, span));
                    }
                }
            }
        }
        proof {
            let step = match r.body@[k as int] {
                Literal::Pos(a) => match (ann_decl(items@, r.head.pred@), ann_decl(items@, a.pred@)) {
                    (Some(ha), Some(ba)) => if coercible(ba, ha) {
                        Seq::empty()
                    } else {
                        seq![(SEMIRING_CONFLICT, msg_semiring(a.pred@, ba, r.head.pred@, ha), span)]
                    },
                    _ => Seq::empty(),
                },
                Literal::Neg(_) => Seq::empty(),
            };
            assert(semi_upto(items@, *r, span, (k + 1) as nat) == semi_upto(items@, *r, span, k as nat) + step);
            assert(diags_v(diags@) =~= dk + step);
        }
        k = k + 1;
    }
}

/// Report a fact whose annotation does not fit its predicate, which is not
/// ground, or which is certain on a neural predicate (the first that applies).
pub fn check_fact(items: &Vec<Item>, f: &Fact, span: Span, diags: &mut Vec<Diagnostic>)
    ensures
        diags_v(final(diags)@) == diags_v(old(diags)@) + fact_diags(items@, *f, span),
{
    let ghost d0 = diags_v(diags@);
    let pred = f.atom.pred.as_str();
    let mut bad = false;
    match decl_ann(items, pred) {
        None => {},
        Some(a) => {
            let is_trop = match a {
                Annotation::Trop => true,
                _ => false,
            };
            if f.weight.is_some() {
                if !is_trop {
                    let mut m = String::new();
                    m.append("the fact on `");
                    m.append(pred);
                    m.append("(...)` carries an integer (tropical) weight, but `");
                    m.append(pred);
                    m.append("` is declared ");
                    push_ann(&mut m, a);
                    m.append("; a probability needs a decimal point (`0.5 ::`), a weight needs the predicate annotated `Trop`");
                    assert(m@ =~= msg_weight_not_trop(pred@, a));
                    diags.push(diag(FACT_ANNOTATION_MISMATCH, m, span));
                    bad = true;
                }
            } else if let Some(p) = &f.prob {
                if is_trop {
                    let mut m = String::new();
                    m.append("`");
                    m.append(p.as_str());
                    m.append(" :: ");
                    m.append(pred);
                    m.append("(...)` is a probability, but `");
                    m.append(pred);
                    m.append("` is declared `Trop`; a tropical weight is an integer (`5 ::`)");
                    assert(m@ =~= msg_prob_on_trop(p@, pred@));
                    diags.push(diag(FACT_ANNOTATION_MISMATCH, m, span));
                    bad = true;
                } else if !in_unit(p.as_str()) {
                    let mut m = String::new();
                    m.append("probability ");
                    m.append(p.as_str());
                    m.append(" on `");
                    m.append(pred);
                    m.append("(...)` is outside [0, 1]");
                    assert(m@ =~= msg_prob_range(p@, pred@));
                    diags.push(diag(FACT_ANNOTATION_MISMATCH, m, span));
                    bad = true;
                }
            } else if is_trop {
                let mut m = String::new();
                m.append("`");
                m.append(pred);
                m.append("` is declared `Trop`, so its facts must carry an integer weight (`5 :: ");
                m.append(pred);
                m.append("(...)`)");
                assert(m@ =~= msg_trop_needs_weight(pred@));
                diags.push(diag(FACT_ANNOTATION_MISMATCH, m, span));
                bad = true;
            }
        },
    }
    assert(bad == (fact_ann_diags(items@, *f, span).len() > 0));
    if bad {
        assert(diags_v(diags@) =~= d0 + fact_diags(items@, *f, span));
        return;
    }
    let mut vars: Vec<String> = Vec::new();
    terms_vars_into(&f.atom.args, &mut vars);
    assert(names_v(vars@) =~= atom_vars(f.atom));
    if vars.len() > 0 {
        diags.push(diag(NON_GROUND_FACT, text2("fact `", pred, "` contains a non-ground term"), span));
        assert(diags_v(diags@) =~= d0 + fact_diags(items@, *f, span));
        return;
    }
    if f.prob.is_none() && decl_neural(items, pred) {
        let mut m = String::new();
        m.append("`");
        m.append(pred);
        m.append("` is a neural predicate; its facts are the model's soft outputs and must be probabilistic (`p :: ");
        m.append(pred);
        m.append("(...)`)");
        assert(m@ =~= msg_neural_fact(pred@));
        diags.push(diag(NEURAL_FACT_NOT_SOFT, m, span));
    }
    assert(diags_v(diags@) =~= d0 + fact_diags(items@, *f, span));
}

/// Check a program's declarations and stratification (see `check_strata`),
/// then the range restriction and semiring flow of each rule and the
/// annotation and groundness of each fact. On success, the declared
/// predicates in order with their least strata.
pub fn check_semantics(program: &Program) -> (r: Result<Strata, Vec<Diagnostic>>)
    requires
        (program.items@.len() + 1) * (edges_of(*program).len() + 1) < u32::MAX,
    ensures
        r is Ok <==> program_errors(*program).len() == 0,
        r matches Err(d) ==> diags_v(d@) == program_errors(*program),
        r matches Ok(st) ==> {
            let o = order_of(*program);
            let e = edges_of(*program);
            &&& strings_v(st.order@) == o
            &&& respects(o.len(), e, ints(st.stratum@))
            &&& forall|t: Seq<int>, u: int| #![trigger respects(o.len(), e, t), st.stratum@[u]]
                respects(o.len(), e, t) && 0 <= u < o.len() ==> st.stratum@[u] <= t[u]
            &&& st.num_strata == if o.len() == 0 { 1 } else { max_upto(ints(st.stratum@), o.len()) + 1 }
        },
{
    let st = match check_strata(program) {
        Ok(st) => st,
        Err(d) => {
            return Err(d);
        },
    };
    let items = &program.items;
    let mut diags: Vec<Diagnostic> = Vec::new();
    let mut k: usize = 0;
    assert(diags_v(diags@) =~= items_upto(items@, 0));
    while k < items.len()
        invariant
            k <= items@.len(),
            diags_v(diags@) == items_upto(items@, k as nat),
        decreases items@.len() - k,
    {
        let ghost dk = diags_v(diags@);
        let span = items[k].span;
        match &items[k].node {
            ItemKind::Rule(r) => {
                check_range_restriction(r, span, &mut diags);
                check_semirings(items, r, span, &mut diags);
                assert(items@[k as int].node == ItemKind::Rule(*r));
                assert(diags_v(diags@) =~= dk + item_diags(items@, k as int));
            },
            ItemKind::Fact(f) => {
                check_fact(items, f, span, &mut diags);
                assert(items@[k as int].node == ItemKind::Fact(*f));
            },
            _ => {
                assert(item_diags(items@, k as int) =~= Seq::<DiagV>::empty());
                assert(diags_v(diags@) =~= dk + item_diags(items@, k as int));
            },
        }
        k = k + 1;
    }
    if diags.len() > 0 {
        return Err(diags);
    }
    Ok(st)
}

} // verus!
