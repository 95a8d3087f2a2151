//! A compiler for the SysY language: abstract syntax, semantic checking,
//! and lowering to a Koopa-style intermediate representation.
pub mod parser;
pub mod semantic;
pub mod builtins;
pub mod ir;
