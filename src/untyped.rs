//! The pure lambda calculus: a front end over the nameless engine of `fulluntyped`.
pub mod parser;

pub use crate::fulluntyped::evaluator::eval;
pub use crate::fulluntyped::syntax::{Context, EvalError, Term};
