//! A small Scheme-like language: lexer, reader and evaluator.
pub mod cursor;
pub mod eval;
pub mod laws;
pub mod lexer;
pub mod reader;
pub mod render;
pub mod roundtrip;
