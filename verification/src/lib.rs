//! An operator-precedence ("Pratt") expression parser.
//!
//! A flat character sequence is tokenized into single-character atoms and
//! operator symbols, and then parsed into a fully parenthesized expression
//! tree by precedence climbing: three small binding-power tables (prefix,
//! infix, postfix) decide, at every operator sighting, whether the current
//! left-hand side keeps growing or control returns to an enclosing call.

pub mod lexer;
pub mod power;
pub mod tree;
pub mod parser;
