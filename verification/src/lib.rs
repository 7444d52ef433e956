//! A verified interpreter for a small parenthesized S-expression language.
//!
//! Source text is tokenized into a flat token list, parsed into a flat table
//! of syntax nodes by bracket-driven recursive descent, and evaluated with an
//! explicit value stack against a line-buffered word input, producing output
//! bytes.  Every stage is specified by a mathematical model (`spec` functions
//! over sequences and maps) and the executable code is proved to implement it.

pub mod token;
pub mod num;
pub mod syntax;
pub mod value;
pub mod eval;
