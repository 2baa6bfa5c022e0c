//! An interpreter for a small expression language: a lexer, a Pratt parser
//! that builds an expression tree, a lowering of the tree to stack bytecode
//! with a deduplicated constant pool and patched relative jumps, and a stack
//! VM with lexical scopes that runs one instruction per step. Numbers are
//! IEEE-754 doubles held as their bits; the VM hands each numeric operation to
//! its driver, which computes it and supplies the result.

pub mod ast;
pub mod bytecode;
pub mod lexer;
pub mod lowering_proofs;
pub mod parser;
pub mod token;
pub mod vm;
