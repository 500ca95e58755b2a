//! The interpreter's specifications read a database only through its content:
//! databases with the same content give the same solved bindings, the same
//! derived facts and the same aggregate results.
use vstd::prelude::*;
use crate::eval::coreir::{CoreLiteral, CorePred, CoreProgram, CoreRule};
use crate::eval::naive::{agg_rule_spec, unbound};
use crate::eval::round::{delta_round_upto, round_facts, round_upto, rule_delta_upto, rule_facts_spec, FactV};
use crate::eval::value::ann_id;
use crate::eval::naive::{drow, drow_step, drows_upto, row_step, rows_upto, solve_d_spec, solve_spec, unify_spec};
use crate::eval::store::{dbs, lemma_same_content, Db};
use crate::eval::value::{Ann, GroundVal, ann_otimes};

verus! {

/// Two well-formed databases with the same content.
pub open spec fn alike(a: Db, b: Db) -> bool {
    a.wf() && b.wf() && dbs(a) == dbs(b)
}

pub proof fn lemma_solve_alike(a: Db, b: Db, preds: Seq<CorePred>, cur: u32, body: Seq<CoreLiteral>, idx: nat, bnd: Seq<Option<GroundVal>>, acc: Ann)
    requires
        alike(a, b),
    ensures
        solve_spec(a, preds, cur, body, idx, bnd, acc) == solve_spec(b, preds, cur, body, idx, bnd, acc),
    decreases 2 * (body.len() - idx) + 1, 0nat,
{
    if idx < body.len() {
        match body[idx as int] {
            CoreLiteral::Pos(atom) => {
                lemma_same_content(a, b, atom.pred@);
                if a.preds().contains(atom.pred@) {
                    lemma_rows_alike(a, b, preds, cur, body, idx, bnd, acc, a.rel(atom.pred@).rows@.len());
                }
            },
            CoreLiteral::Neg(atom) => {
                lemma_same_content(a, b, atom.pred@);
                lemma_solve_alike(a, b, preds, cur, body, idx + 1, bnd, acc);
            },
        }
    }
}

pub proof fn lemma_rows_alike(a: Db, b: Db, preds: Seq<CorePred>, cur: u32, body: Seq<CoreLiteral>, idx: nat, bnd: Seq<Option<GroundVal>>, acc: Ann, k: nat)
    requires
        alike(a, b),
        idx < body.len(),
        body[idx as int] is Pos,
        a.preds().contains(body[idx as int]->Pos_0.pred@),
        k <= a.rel(body[idx as int]->Pos_0.pred@).rows@.len(),
    ensures
        rows_upto(a, preds, cur, body, idx, bnd, acc, k) == rows_upto(b, preds, cur, body, idx, bnd, acc, k),
    decreases 2 * (body.len() - idx), k + 1,
{
    if k > 0 {
        lemma_rows_alike(a, b, preds, cur, body, idx, bnd, acc, (k - 1) as nat);
        lemma_row_step_alike(a, b, preds, cur, body, idx, bnd, acc, k - 1);
    }
}

pub proof fn lemma_row_step_alike(a: Db, b: Db, preds: Seq<CorePred>, cur: u32, body: Seq<CoreLiteral>, idx: nat, bnd: Seq<Option<GroundVal>>, acc: Ann, k: int)
    requires
        alike(a, b),
        idx < body.len(),
        body[idx as int] is Pos,
        a.preds().contains(body[idx as int]->Pos_0.pred@),
        0 <= k < a.rel(body[idx as int]->Pos_0.pred@).rows@.len(),
    ensures
        row_step(a, preds, cur, body, idx, bnd, acc, k) == row_step(b, preds, cur, body, idx, bnd, acc, k),
    decreases 2 * (body.len() - idx), 0nat,
{
    let p = body[idx as int]->Pos_0.pred@;
    lemma_same_content(a, b, p);
    let row = a.rel(p).rows@[k];
    assert(row.0@ == b.rel(p).rows@[k].0@ && row.1 == b.rel(p).rows@[k].1);
    let atom = body[idx as int]->Pos_0;
    if let Some(b2) = unify_spec(atom.args@, row.0@, bnd) {
        if let Some(a2) = ann_otimes(acc, row.1) {
            lemma_solve_alike(a, b, preds, cur, body, idx + 1, b2, a2);
        }
    }
}

pub proof fn lemma_solve_d_alike(a: Db, b: Db, preds: Seq<CorePred>, cur: u32, body: Seq<CoreLiteral>, idx: nat, bnd: Seq<Option<GroundVal>>, acc: Ann, d: Option<(int, Seq<(Seq<GroundVal>, Ann)>)>)
    requires
        alike(a, b),
    ensures
        solve_d_spec(a, preds, cur, body, idx, bnd, acc, d) == solve_d_spec(b, preds, cur, body, idx, bnd, acc, d),
    decreases 2 * (body.len() - idx) + 1, 0nat,
{
    if idx < body.len() {
        match body[idx as int] {
            CoreLiteral::Pos(atom) => {
                lemma_same_content(a, b, atom.pred@);
                if d matches Some((p, _)) && p == idx {
                    lemma_drows_alike(a, b, preds, cur, body, idx, bnd, acc, d, d.unwrap().1.len());
                } else if a.preds().contains(atom.pred@) {
                    lemma_drows_alike(a, b, preds, cur, body, idx, bnd, acc, d, a.rel(atom.pred@).rows@.len());
                }
            },
            CoreLiteral::Neg(atom) => {
                lemma_same_content(a, b, atom.pred@);
                lemma_solve_d_alike(a, b, preds, cur, body, idx + 1, bnd, acc, d);
            },
        }
    }
}

pub proof fn lemma_drows_alike(a: Db, b: Db, preds: Seq<CorePred>, cur: u32, body: Seq<CoreLiteral>, idx: nat, bnd: Seq<Option<GroundVal>>, acc: Ann, d: Option<(int, Seq<(Seq<GroundVal>, Ann)>)>, k: nat)
    requires
        alike(a, b),
        idx < body.len(),
        body[idx as int] is Pos,
        (d matches Some((p, rows)) && p == idx) ==> k <= d.unwrap().1.len(),
        !(d matches Some((p, rows)) && p == idx) ==> a.preds().contains(body[idx as int]->Pos_0.pred@)
            && k <= a.rel(body[idx as int]->Pos_0.pred@).rows@.len(),
    ensures
        drows_upto(a, preds, cur, body, idx, bnd, acc, d, k) == drows_upto(b, preds, cur, body, idx, bnd, acc, d, k),
    decreases 2 * (body.len() - idx), k + 1,
{
    if k > 0 {
        lemma_drows_alike(a, b, preds, cur, body, idx, bnd, acc, d, (k - 1) as nat);
        lemma_drow_step_alike(a, b, preds, cur, body, idx, bnd, acc, d, k - 1);
    }
}

pub proof fn lemma_drow_step_alike(a: Db, b: Db, preds: Seq<CorePred>, cur: u32, body: Seq<CoreLiteral>, idx: nat, bnd: Seq<Option<GroundVal>>, acc: Ann, d: Option<(int, Seq<(Seq<GroundVal>, Ann)>)>, k: int)
    requires
        alike(a, b),
        idx < body.len(),
        body[idx as int] is Pos,
        0 <= k,
        (d matches Some((p, rows)) && p == idx) ==> k < d.unwrap().1.len(),
        !(d matches Some((p, rows)) && p == idx) ==> a.preds().contains(body[idx as int]->Pos_0.pred@)
            && k < a.rel(body[idx as int]->Pos_0.pred@).rows@.len(),
    ensures
        drow_step(a, preds, cur, body, idx, bnd, acc, d, k) == drow_step(b, preds, cur, body, idx, bnd, acc, d, k),
    decreases 2 * (body.len() - idx), 0nat,
{
    let p = body[idx as int]->Pos_0.pred@;
    lemma_same_content(a, b, p);
    if !(d matches Some((q, rows)) && q == idx) {
        assert(a.rel(p).rows@[k].0@ == b.rel(p).rows@[k].0@ && a.rel(p).rows@[k].1 == b.rel(p).rows@[k].1);
    }
    let row = drow(a, body, idx, d, k);
    assert(row == drow(b, body, idx, d, k));
    let atom = body[idx as int]->Pos_0;
    if let Some(b2) = unify_spec(atom.args@, row.0, bnd) {
        if let Some(a2) = ann_otimes(acc, row.1) {
            lemma_solve_d_alike(a, b, preds, cur, body, idx + 1, b2, a2, d);
        }
    }
}


pub proof fn lemma_rule_facts_alike(a: Db, b: Db, preds: Seq<CorePred>, cur: u32, rule: CoreRule, d: Option<(int, Seq<(Seq<GroundVal>, Ann)>)>)
    requires
        alike(a, b),
    ensures
        rule_facts_spec(a, preds, cur, rule, d) == rule_facts_spec(b, preds, cur, rule, d),
{
    lemma_same_content(a, b, rule.head.pred@);
    if a.preds().contains(rule.head.pred@) {
        lemma_solve_d_alike(a, b, preds, cur, rule.body@, 0, unbound(rule.var_count as nat), ann_id(a.rel(rule.head.pred@).semiring), d);
    }
}

pub proof fn lemma_round_alike(a: Db, b: Db, prog: CoreProgram, cur: u32, k: nat)
    requires
        alike(a, b),
    ensures
        round_upto(a, prog, cur, k) == round_upto(b, prog, cur, k),
    decreases k,
{
    if k > 0 {
        lemma_round_alike(a, b, prog, cur, (k - 1) as nat);
        lemma_rule_facts_alike(a, b, prog.predicates@, cur, prog.rules@[k - 1], None);
    }
}

pub proof fn lemma_rule_delta_alike(a: Db, b: Db, prog: CoreProgram, cur: u32, rule: CoreRule, d: Seq<FactV>, i: nat)
    requires
        alike(a, b),
    ensures
        rule_delta_upto(a, prog, cur, rule, d, i) == rule_delta_upto(b, prog, cur, rule, d, i),
    decreases i,
{
    if i > 0 {
        lemma_rule_delta_alike(a, b, prog, cur, rule, d, (i - 1) as nat);
        lemma_rule_facts_alike(a, b, prog.predicates@, cur, rule, Some(((i - 1) as int, crate::eval::round::pick(d, rule.body@[i - 1]->Pos_0.pred@))));
    }
}

pub proof fn lemma_delta_round_alike(a: Db, b: Db, prog: CoreProgram, cur: u32, d: Seq<FactV>, k: nat)
    requires
        alike(a, b),
    ensures
        delta_round_upto(a, prog, cur, d, k) == delta_round_upto(b, prog, cur, d, k),
    decreases k,
{
    if k > 0 {
        lemma_delta_round_alike(a, b, prog, cur, d, (k - 1) as nat);
        lemma_rule_delta_alike(a, b, prog, cur, prog.rules@[k - 1], d, prog.rules@[k - 1].body@.len());
    }
}

/// The facts of a round (full, or over a delta) depend on the content only.
pub proof fn lemma_round_facts_alike(a: Db, b: Db, prog: CoreProgram, cur: u32, d: Option<Seq<FactV>>)
    requires
        alike(a, b),
    ensures
        round_facts(a, prog, cur, d) == round_facts(b, prog, cur, d),
{
    match d {
        None => lemma_round_alike(a, b, prog, cur, prog.rules@.len()),
        Some(dv) => lemma_delta_round_alike(a, b, prog, cur, dv, prog.rules@.len()),
    }
}


/// An aggregate rule's head tuples depend on the content only.
pub proof fn lemma_agg_alike(a: Db, b: Db, rule: CoreRule, preds: Seq<CorePred>, cur: u32)
    requires
        alike(a, b),
    ensures
        agg_rule_spec(a, rule, preds, cur) == agg_rule_spec(b, rule, preds, cur),
{
    lemma_solve_alike(a, b, preds, cur, rule.body@, 0, unbound(rule.var_count as nat), Ann::Unit);
}

} // verus!
