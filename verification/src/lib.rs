//! Strata/K — a stratified, semiring-parameterized Datalog engine: the verified
//! core of the answer-set stack, the incremental (DRed) evaluator, the
//! stratifier, and the query-planning / partitioning layer of the execution
//! engine.
pub mod asp;
pub mod check;
pub mod cli;
pub mod diag;
pub mod eval;
pub mod front;
pub mod gpu;
pub mod math;
pub mod text;
