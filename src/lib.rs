//! Interpreters for a family of small lambda-calculus-based languages.
//!
//! - [`arith`]: booleans and Peano naturals, with a small-step and a big-step evaluator.
//! - [`tyarith`]: the same language with a type checker.
//! - [`fulluntyped`]: the untyped lambda calculus with booleans and naturals, in
//!   de Bruijn (nameless) form, with shifting, substitution and a call-by-value evaluator.
//! - [`untyped`]: the pure lambda calculus, a front end over the `fulluntyped` engine.
//! - [`simplebool`]: the simply typed lambda calculus with booleans and its type checker.
//!
//! [`scan`] splits source text into lexemes for the lexers of each language, and
//! [`names`] chooses display names for binders.
pub mod arith;
pub mod names;
pub mod scan;
pub mod tyarith;
pub mod fulluntyped;
pub mod simplebool;
pub mod untyped;
