//! A compiler from the eight-symbol tape language to x86-64 assembly.
//!
//! The pipeline has three stages, each consuming the whole output of the one
//! before it: [`lexer`] turns source text into tokens, [`parser`] turns tokens
//! into a tree of operations, and [`codegen`] turns the tree into an
//! instruction listing.

pub mod codegen;
pub mod decimal;
pub mod lexer;
pub mod parser;
