//! The Core-IR the interpreter runs: predicates with their arity, semiring
//! and stratum, and rules over slot-numbered variables.
use vstd::prelude::*;
use crate::eval::value::{GroundVal, Semiring};
use crate::front::ir::AggOp;

verus! {

/// A term of a Core-IR atom: a variable slot, a symbol, an integer, or an
/// aggregate over a slot (heads only).
#[derive(Debug, Clone, Copy, PartialEq, Eq, Structural)]
pub enum CoreTerm {
    Var { slot: u32 },
    Const { sym: u32 },
    Int { value: i64 },
    Agg { op: AggOp, slot: u32 },
}

/// `pred(args…)`.
#[derive(Debug, PartialEq)]
pub struct CoreAtom {
    pub pred: String,
    pub args: Vec<CoreTerm>,
}

#[derive(Debug, PartialEq)]
pub enum CoreLiteral {
    Pos(CoreAtom),
    Neg(CoreAtom),
}

/// A rule: head, body, how many variable slots it uses, and its stratum.
#[derive(Debug, PartialEq)]
pub struct CoreRule {
    pub head: CoreAtom,
    pub body: Vec<CoreLiteral>,
    pub var_count: u32,
    pub stratum: u32,
}

/// A declared predicate.
#[derive(Debug, PartialEq)]
pub struct CorePred {
    pub name: String,
    pub arity: u32,
    pub semiring: Semiring,
    pub stratum: u32,
}

/// A lowered program.
#[derive(Debug, PartialEq)]
pub struct CoreProgram {
    pub predicates: Vec<CorePred>,
    pub rules: Vec<CoreRule>,
    pub num_strata: u32,
}

/// The value a term stands for under a binding, if it has one.
pub open spec fn term_value(t: CoreTerm, b: Seq<Option<GroundVal>>) -> Option<GroundVal> {
    match t {
        CoreTerm::Var { slot } => b[slot as int],
        CoreTerm::Const { sym } => Some(GroundVal::Sym(sym)),
        CoreTerm::Int { value } => Some(GroundVal::Int(value)),
        CoreTerm::Agg { .. } => None,
    }
}

/// The head has an aggregate term.
pub open spec fn is_aggregate_rule_spec(r: CoreRule) -> bool {
    exists|i: int| 0 <= i < r.head.args@.len() && #[trigger] r.head.args@[i] is Agg
}

/// Does the rule's head aggregate?
pub fn is_aggregate_rule(rule: &CoreRule) -> (b: bool)
    ensures
        b == is_aggregate_rule_spec(*rule),
{
    let mut i: usize = 0;
    while i < rule.head.args.len()
        invariant
            i <= rule.head.args@.len(),
            forall|k: int| 0 <= k < i ==> !(#[trigger] rule.head.args@[k] is Agg),
        decreases rule.head.args@.len() - i,
    {
        if let CoreTerm::Agg { .. } = rule.head.args[i] {
            return true;
        }
        i = i + 1;
    }
    false
}

} // verus!
