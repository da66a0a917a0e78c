//! Front end of a small expression language: source text is cut into
//! tokens, and the tokens are parsed by recursive descent and precedence
//! climbing into function definitions, external declarations and anonymous
//! top-level expressions.
//!
//! Every function states what it computes over mathematical models of its
//! data (`Seq<char>` for text, ghost mirror types for tokens and syntax
//! trees), and Verus proves the code against those statements.

pub mod ast;
pub mod classes;
pub mod grammar;
pub mod lexer;
pub mod number;
pub mod parser;
pub mod precedence;
pub mod printer;
pub mod text;
pub mod writer;
