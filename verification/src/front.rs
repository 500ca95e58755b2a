//! Front end: the `E0xxx` diagnostic code block, the lexer, the High-IR and
//! its canonical printer.
pub mod codes;
pub mod ir;
pub mod lexer;
pub mod printer;
