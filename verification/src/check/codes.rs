//! The `E1xxx` block of diagnostic codes, owned by the checker.
use vstd::prelude::*;
use crate::diag::DiagCode;

verus! {

/// A predicate is used but never declared.
pub const UNDECLARED_PRED: u32 = 1001;
/// Negation/aggregation through a cycle: not stratifiable.
pub const UNSTRATIFIABLE: u32 = 1002;
/// A head or negated-literal variable is not bound by a positive body literal.
pub const NOT_RANGE_RESTRICTED: u32 = 1003;
/// A fact contains a non-ground term.
pub const NON_GROUND_FACT: u32 = 1004;
/// An atom's arity does not match its declaration.
pub const ARITY_MISMATCH: u32 = 1005;
/// A predicate's annotation is not executable.
pub const NOT_EXECUTABLE: u32 = 1006;
/// A rule mixes incompatible semirings.
pub const SEMIRING_CONFLICT: u32 = 1007;
/// A forbidden cell of the semiring × recursion table.
pub const TABLE_2_4_FORBIDDEN: u32 = 1008;
/// A fact's `::` annotation does not fit its predicate's annotation.
pub const FACT_ANNOTATION_MISMATCH: u32 = 1009;
/// A certain fact on a neural predicate.
pub const NEURAL_FACT_NOT_SOFT: u32 = 1010;
/// A construct `@asp` does not run.
pub const ASP_UNSUPPORTED: u32 = 1011;
/// A predicate redeclared with another signature.
pub const CONFLICTING_DECLARATION: u32 = 1012;

/// The registered codes, in order.
pub open spec fn registered() -> Seq<u32> {
    seq![1001u32, 1002, 1003, 1004, 1005, 1006, 1007, 1008]
}

/// Every code of the block with its stable name.
pub fn all() -> (r: Vec<(DiagCode, &'static str)>)
    ensures
        r@.len() == registered().len(),
        forall|i: int| 0 <= i < r@.len() ==> (#[trigger] r@[i]).0.0 == registered()[i],
        forall|i: int, j: int| 0 <= i < j < r@.len() ==> (#[trigger] r@[i]).0 != (#[trigger] r@[j]).0,
        forall|i: int| 0 <= i < r@.len() ==> 1000 <= (#[trigger] r@[i]).0.0 < 2000,
{
    let r = vec![
        (DiagCode(UNDECLARED_PRED), "check.undeclared-predicate"),
        (DiagCode(UNSTRATIFIABLE), "check.unstratifiable"),
        (DiagCode(NOT_RANGE_RESTRICTED), "check.not-range-restricted"),
        (DiagCode(NON_GROUND_FACT), "check.non-ground-fact"),
        (DiagCode(ARITY_MISMATCH), "check.arity-mismatch"),
        (DiagCode(NOT_EXECUTABLE), "check.not-executable-annotation"),
        (DiagCode(SEMIRING_CONFLICT), "check.semiring-conflict"),
        (DiagCode(TABLE_2_4_FORBIDDEN), "check.table-2.4-forbidden"),
    ];
    r
}

} // verus!
