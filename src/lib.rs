//! A small integer calculator core: text is turned into tokens, tokens into
//! an expression tree by an operator-precedence parser, and the tree is
//! reduced to a single unsigned value.
pub mod tokenizer;
pub mod parser;
pub mod evaluator;
