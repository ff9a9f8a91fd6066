//! The untyped lambda calculus with booleans and naturals, in nameless form.
pub mod syntax;
pub mod evaluator;
pub mod lexer;
pub mod builtin;
pub mod parser;
