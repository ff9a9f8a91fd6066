//! The arithmetic language with a type checker.
pub mod parser;

use vstd::prelude::*;

pub use crate::arith::{big_eval, eval, EvalError, Term};
use crate::arith::{
    evaluated, is_numeric, is_value, lemma_normal_form_is_normal, lemma_step_shrinks, normal_form,
    size, step,
};

verus! {

/// The types of the arithmetic language.
#[derive(Copy, Clone, Debug, PartialEq, Eq, Structural)]
pub enum Type {
    Nat,
    Bool,
}

/// The term has no type.
#[derive(Copy, Clone, Debug, PartialEq, Eq, Structural)]
pub enum TyError {
    TypingError,
}

/// The typing judgment: the type of `t`, or `TypingError` when no rule derives one.
/// A conditional needs its else-branch.
pub open spec fn type_of_term(t: Term) -> Result<Type, TyError>
    decreases t,
{
    match t {
        Term::True | Term::False => Ok(Type::Bool),
        Term::Zero => Ok(Type::Nat),
        Term::Succ(a) => if type_of_term(*a) == Ok::<Type, TyError>(Type::Nat) {
            Ok(Type::Nat)
        } else {
            Err(TyError::TypingError)
        },
        Term::Pred(a) => if type_of_term(*a) == Ok::<Type, TyError>(Type::Nat) {
            Ok(Type::Nat)
        } else {
            Err(TyError::TypingError)
        },
        Term::IsZero(a) => if type_of_term(*a) == Ok::<Type, TyError>(Type::Nat) {
            Ok(Type::Bool)
        } else {
            Err(TyError::TypingError)
        },
        Term::If(c, a, b) => if type_of_term(*c) == Ok::<Type, TyError>(Type::Bool) {
            match type_of_term(*a) {
                Ok(ta) => match b {
                    Some(e) => match type_of_term(*e) {
                        Ok(tb) => if ta == tb {
                            Ok(ta)
                        } else {
                            Err(TyError::TypingError)
                        },
                        Err(err) => Err(err),
                    },
                    None => Err(TyError::TypingError),
                },
                Err(err) => Err(err),
            }
        } else {
            Err(TyError::TypingError)
        },
    }
}

/// Computes the type of `term`.
pub fn type_check(term: Term) -> (r: Result<Type, TyError>)
    ensures
        r == type_of_term(term),
    decreases term,
{
    match term {
        Term::True => Ok(Type::Bool),
        Term::False => Ok(Type::Bool),
        Term::Zero => Ok(Type::Nat),
        Term::Succ(a) => match type_check(*a) {
            Ok(Type::Nat) => Ok(Type::Nat),
            _ => Err(TyError::TypingError),
        },
        Term::Pred(a) => match type_check(*a) {
            Ok(Type::Nat) => Ok(Type::Nat),
            _ => Err(TyError::TypingError),
        },
        Term::IsZero(a) => match type_check(*a) {
            Ok(Type::Nat) => Ok(Type::Bool),
            _ => Err(TyError::TypingError),
        },
        Term::If(c, a, b) => match type_check(*c) {
            Ok(Type::Bool) => {
                let ta = match type_check(*a) {
                    Ok(ta) => ta,
                    Err(err) => {
                        return Err(err);
                    },
                };
                match b {
                    Some(e) => {
                        let tb = match type_check(*e) {
                            Ok(tb) => tb,
                            Err(err) => {
                                return Err(err);
                            },
                        };
                        if ta == tb {
                            Ok(tb)
                        } else {
                            Err(TyError::TypingError)
                        }
                    },
                    None => Err(TyError::TypingError),
                }
            },
            _ => Err(TyError::TypingError),
        },
    }
}

/// The type of `term`, or `TypingError` when it has none.
pub fn typing(term: Term) -> (r: Result<Type, TyError>)
    ensures
        r == type_of_term(term),
{
    type_check(term)
}

/// Every numeral has type `Nat`.
pub proof fn lemma_numeral_is_nat(t: Term)
    requires
        is_numeric(t),
    ensures
        type_of_term(t) == Ok::<Type, TyError>(Type::Nat),
    decreases t,
{
    if let Term::Succ(a) = t {
        lemma_numeral_is_nat(*a);
    }
}

/// Type preservation: a step from a well-typed term leads to a term of the same type.
pub proof fn lemma_preservation(t: Term)
    requires
        type_of_term(t) is Ok,
        step(t) is Ok,
    ensures
        type_of_term(step(t)->Ok_0) == type_of_term(t),
    decreases t,
{
    match t {
        Term::If(c, a, b) => {
            if !(*c is True) && !(*c is False) {
                lemma_preservation(*c);
            }
        },
        Term::IsZero(a) => {
            if !is_numeric(*a) {
                lemma_preservation(*a);
            }
        },
        Term::Pred(a) => {
            if is_numeric(*a) {
                if let Term::Succ(n) = *a {
                    lemma_numeral_is_nat(*n);
                }
            } else {
                lemma_preservation(*a);
            }
        },
        Term::Succ(a) => {
            lemma_preservation(*a);
        },
        _ => {},
    }
}

/// Canonical forms: a value of type `Bool` is a boolean literal, one of type `Nat`
/// a numeral.
pub proof fn lemma_canonical_forms(v: Term)
    ensures
        is_value(v) && type_of_term(v) == Ok::<Type, TyError>(Type::Bool) ==> (v is True
            || v is False),
        is_value(v) && type_of_term(v) == Ok::<Type, TyError>(Type::Nat) ==> is_numeric(v),
{
    if is_numeric(v) {
        lemma_numeral_is_nat(v);
    }
}

/// Progress: a well-typed term is a value or takes a step.
pub proof fn lemma_progress(t: Term)
    requires
        type_of_term(t) is Ok,
    ensures
        is_value(t) || step(t) is Ok,
    decreases t,
{
    match t {
        Term::If(c, a, b) => {
            lemma_progress(*c);
            lemma_canonical_forms(*c);
        },
        Term::IsZero(a) => {
            lemma_progress(*a);
            lemma_canonical_forms(*a);
        },
        Term::Pred(a) => {
            lemma_progress(*a);
            lemma_canonical_forms(*a);
        },
        Term::Succ(a) => {
            lemma_progress(*a);
            lemma_canonical_forms(*a);
        },
        _ => {},
    }
}

/// A well-typed term evaluates to a value of its type: evaluation never gets stuck on it.
pub proof fn lemma_well_typed_evaluates(t: Term)
    requires
        type_of_term(t) is Ok,
    ensures
        is_value(normal_form(t)),
        type_of_term(normal_form(t)) == type_of_term(t),
        evaluated(t) == Ok::<Term, crate::arith::EvalError>(normal_form(t)),
    decreases size(t),
{
    if let Ok(t2) = step(t) {
        lemma_step_shrinks(t);
        lemma_preservation(t);
        lemma_well_typed_evaluates(t2);
    } else {
        lemma_progress(t);
    }
}

} // verus!
