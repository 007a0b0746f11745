//! A small compiler front end: a lexer and a parser for a C-like language,
//! and the lowering of its syntax tree to a plan of LLVM IR construction.
pub mod ast;
pub mod lexer;
pub mod parser;
pub mod codegen;
