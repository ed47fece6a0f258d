//! Propositional-logic expression parser and canonicalizer.
//!
//! The library parses textual propositional-logic expressions into a parse
//! tree and renders any parsed expression back as a fully parenthesized
//! string in which every operator application is explicit.

pub mod ast;
pub mod parser;
pub mod render;
pub mod laws;
