//! Diagnostic codes shared by the front end and the checker.
use vstd::prelude::*;

verus! {

/// A diagnostic code: `E0xxx` for the front end, `E1xxx` for the checker.
#[derive(Debug, Clone, Copy, PartialEq, Eq, Structural, Hash)]
pub struct DiagCode(pub u32);

/// A byte range `start..end` of the source text.
#[derive(Debug, Clone, Copy, PartialEq, Eq, Structural, Hash)]
pub struct Span {
    pub start: u32,
    pub end: u32,
}

/// An error diagnostic: its code, its message, and the source range it is
/// about.
#[derive(Debug, PartialEq)]
pub struct Diagnostic {
    pub code: DiagCode,
    pub message: String,
    pub span: Span,
}

} // verus!
