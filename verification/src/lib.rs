//! A small command-line shell: a lexer that turns a line into tokens, a parser
//! that builds a command tree from them, and an evaluator that decides, step by
//! step, which outside action the tree asks for next.
pub mod ast;
pub mod enums;
pub mod lexer;
pub mod parser;
pub mod text;
