//! The `E0xxx` block of diagnostic codes, owned by the front end (the numbers;
//! [`all`] pairs each with its [`DiagCode`] name). Each code is allocated once.
use vstd::prelude::*;
use crate::diag::DiagCode;

verus! {

/// Unexpected character(s) during lexing.
pub const LEX_UNEXPECTED: u32 = 1;
/// Expected one token/construct, found another.
pub const PARSE_EXPECTED: u32 = 2;
/// Input ended while a construct was still open.
pub const PARSE_UNEXPECTED_EOF: u32 = 3;
/// A variable occurs exactly once in a rule.
pub const SINGLETON_VAR: u32 = 10;
/// A construct is grammatical but not executable yet.
pub const NOT_IMPLEMENTED: u32 = 100;

/// The registered codes, in order.
pub open spec fn registered() -> Seq<u32> {
    seq![1u32, 2, 3, 10, 100]
}

/// Every code of the block with its stable name.
pub fn all() -> (r: Vec<(DiagCode, &'static str)>)
    ensures
        r@.len() == registered().len(),
        forall|i: int| 0 <= i < r@.len() ==> (#[trigger] r@[i]).0.0 == registered()[i],
        forall|i: int, j: int| 0 <= i < j < r@.len() ==> (#[trigger] r@[i]).0 != (#[trigger] r@[j]).0,
{
    vec![
        (DiagCode(LEX_UNEXPECTED), "lex.unexpected-character"),
        (DiagCode(PARSE_EXPECTED), "parse.expected"),
        (DiagCode(PARSE_UNEXPECTED_EOF), "parse.unexpected-eof"),
        (DiagCode(SINGLETON_VAR), "wf.singleton-variable"),
        (DiagCode(NOT_IMPLEMENTED), "phase0.not-implemented"),
    ]
}

} // verus!
