//! The High-IR: the program as written, item by item, with the comments and
//! blank lines that precede each item so that printing gives it back.
use vstd::prelude::*;
use crate::diag::Span;

verus! {

/// An aggregate operator.
#[derive(Debug, Clone, Copy, PartialEq, Eq, Structural)]
pub enum AggOp {
    Min,
    Max,
    Sum,
    Count,
    ProbOr,
}

/// A term.
#[derive(Debug, PartialEq)]
pub enum Term {
    Var { name: String },
    Const { name: String },
    Int { value: i64 },
    Agg { op: AggOp, var: String },
    Compound { functor: String, args: Vec<Term> },
}

/// `pred(args…)`.
#[derive(Debug, PartialEq)]
pub struct Atom {
    pub pred: String,
    pub args: Vec<Term>,
}

/// A body literal.
#[derive(Debug, PartialEq)]
pub enum Literal {
    Pos(Atom),
    Neg(Atom),
}

/// `head :- body.`
#[derive(Debug, PartialEq)]
pub struct Rule {
    pub head: Atom,
    pub body: Vec<Literal>,
}

/// A tropical weight: a finite integer or `+∞`.
#[derive(Debug, Clone, Copy, PartialEq, Eq, Structural)]
pub enum Weight {
    Finite(i64),
    PosInf,
}

/// A fact, with an optional tropical weight or probability. The probability
/// is kept as the decimal literal it was written as.
#[derive(Debug, PartialEq)]
pub struct Fact {
    pub atom: Atom,
    pub weight: Option<Weight>,
    pub prob: Option<String>,
}

/// The type of a predicate argument.
#[derive(Debug, PartialEq)]
pub enum ArgType {
    Domain { name: String },
    Int,
    Term { name: String },
}

/// A predicate's semiring annotation.
#[derive(Debug, Clone, Copy, PartialEq, Eq, Structural)]
pub enum Annotation {
    Bool,
    Trop,
    Prov,
    ProvK { k: u32 },
}

#[derive(Debug, Clone, Copy, PartialEq, Eq, Structural)]
pub enum Termination {
    Total,
    Partial,
}

#[derive(Debug, Clone, Copy, PartialEq, Eq, Structural)]
pub enum Completeness {
    Complete,
    SoundOnly,
}

#[derive(Debug, Clone, Copy, PartialEq, Eq, Structural)]
pub enum Determinism {
    Deterministic,
    Stochastic,
}

/// A predicate's declared effects; the defaults are total, complete and
/// deterministic.
#[derive(Debug, Clone, Copy, PartialEq, Eq, Structural)]
pub struct Effects {
    pub termination: Termination,
    pub completeness: Completeness,
    pub determinism: Determinism,
}

impl Effects {
    /// Total, complete, deterministic.
    pub fn default_effects() -> (e: Effects)
        ensures
            e == (Effects { termination: Termination::Total, completeness: Completeness::Complete, determinism: Determinism::Deterministic }),
    {
        Effects { termination: Termination::Total, completeness: Completeness::Complete, determinism: Determinism::Deterministic }
    }
}

/// A predicate signature.
#[derive(Debug, PartialEq)]
pub struct Signature {
    pub args: Vec<ArgType>,
    pub annotation: Annotation,
    pub effects: Effects,
}

/// The model a neural predicate reads from.
#[derive(Debug, PartialEq)]
pub struct NeuralSpec {
    pub model: String,
}

/// `pred name(args): annotation effects.` or `neural name(args) from model "m".`
#[derive(Debug, PartialEq)]
pub struct PredDecl {
    pub name: String,
    pub sig: Signature,
    pub neural: Option<NeuralSpec>,
}

/// `domain name.`
#[derive(Debug, PartialEq)]
pub struct DomainDecl {
    pub name: String,
}

/// `input pred from "path".`
#[derive(Debug, PartialEq)]
pub struct InputDecl {
    pub pred: String,
    pub path: String,
}

#[derive(Debug, Clone, Copy, PartialEq, Eq, Structural)]
pub enum QueryKind {
    Plain,
    Prob,
    Grad,
}

/// `? atom.`, `?prob atom.`, `?grad atom.`
#[derive(Debug, PartialEq)]
pub struct Query {
    pub atom: Atom,
    pub kind: QueryKind,
}

#[derive(Debug, Clone, Copy, PartialEq, Eq, Structural)]
pub enum Pragma {
    Terms,
    Asp,
}

/// What an item is.
#[derive(Debug, PartialEq)]
pub enum ItemKind {
    Domain(DomainDecl),
    Predicate(PredDecl),
    Rule(Rule),
    Fact(Fact),
    Input(InputDecl),
    Query(Query),
    Pragma(Pragma),
}

/// The comments and the blank line that precede an item.
#[derive(Debug, PartialEq)]
pub struct Trivia {
    pub leading: Vec<String>,
    pub blank_before: bool,
}

/// An item with its trivia and source span.
#[derive(Debug, PartialEq)]
pub struct Item {
    pub node: ItemKind,
    pub trivia: Trivia,
    pub span: Span,
}

/// A program: its items in order.
#[derive(Debug, PartialEq)]
pub struct Program {
    pub items: Vec<Item>,
}

} // verus!
