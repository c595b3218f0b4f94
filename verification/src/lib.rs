//! Front end of a compiler for a line-numbered BASIC-like language.
//!
//! The library turns a stream of lexical tokens into an abstract syntax
//! tree ([`ast`]), and lowers that tree into a flat, label-addressed
//! three-address intermediate representation ([`hir`]).  The grammar is
//! stated mathematically in [`grammar`], the lowering in [`lowering`];
//! the executable parser and builder are proved to follow them exactly.

pub mod tokens;
pub mod error;
pub mod ast;
pub mod grammar;
pub mod parser;
pub mod hir;
pub mod lowering;
pub mod builder;
