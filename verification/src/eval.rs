//! Evaluation: incremental (DRed) maintenance of a positive-Datalog
//! materialization, provenance proof sets, and the reference interpreter's
//! values, annotations, relation storage and bindings.
pub mod content;
pub mod coreir;
pub mod dred;
pub mod naive;
pub mod provenance;
pub mod round;
pub mod run;
pub mod store;
pub mod value;
