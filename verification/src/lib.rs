//! A verified compiler core for a miniature language: integer and identifier
//! tokens, precedence-climbing expression parsing into an abstract syntax
//! tree, and lowering of statements into linear assembly text for a
//! two-register stack machine.

pub mod codegen;
pub mod lexer;
pub mod parser;
pub mod text;
