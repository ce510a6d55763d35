//! An interpreter for the eight-instruction tape language: a lexer from source
//! text to commands, a parser from commands to a tree of loops, and a
//! resumable executor that walks that tree over a wrapping byte tape.
pub mod lexer;
pub mod ast;
pub mod interpreter;
pub mod theorems;
