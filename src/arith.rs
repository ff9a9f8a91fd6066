//! Booleans and Peano naturals: terms, one-step reduction, and two evaluators.
use vstd::prelude::*;

verus! {

/// A term of the arithmetic language.
#[derive(Debug, PartialEq)]
pub enum Term {
    True,
    False,
    Zero,
    IsZero(Box<Term>),
    If(Box<Term>, Box<Term>, Option<Box<Term>>),
    Succ(Box<Term>),
    Pred(Box<Term>),
}

/// Why a term cannot take a reduction step, or why evaluation stopped short of a value.
#[derive(Debug, PartialEq)]
pub enum EvalError {
    /// No rule applies to this term.
    NoRule(Term),
    /// This `If` has a false condition and no else-branch.
    NoElse(Term),
}

impl Clone for Term {
    fn clone(&self) -> (r: Self)
        ensures
            r == *self,
        decreases self,
    {
        match self {
            Term::True => Term::True,
            Term::False => Term::False,
            Term::Zero => Term::Zero,
            Term::IsZero(a) => Term::IsZero(Box::new((**a).clone())),
            Term::If(c, a, b) => {
                let b2 = match b {
                    Some(e) => Some(Box::new((**e).clone())),
                    None => None,
                };
                Term::If(Box::new((**c).clone()), Box::new((**a).clone()), b2)
            },
            Term::Succ(a) => Term::Succ(Box::new((**a).clone())),
            Term::Pred(a) => Term::Pred(Box::new((**a).clone())),
        }
    }
}

/// Numerals: `Zero` under any number of `Succ`.
pub open spec fn is_numeric(t: Term) -> bool
    decreases t,
{
    match t {
        Term::Zero => true,
        Term::Succ(a) => is_numeric(*a),
        _ => false,
    }
}

/// Values: the boolean literals and the numerals.
pub open spec fn is_value(t: Term) -> bool {
    t is True || t is False || is_numeric(t)
}

/// Number of constructors in a term.
pub open spec fn size(t: Term) -> nat
    decreases t,
{
    match t {
        Term::True | Term::False | Term::Zero => 1,
        Term::IsZero(a) => 1 + size(*a),
        Term::Succ(a) => 1 + size(*a),
        Term::Pred(a) => 1 + size(*a),
        Term::If(c, a, b) => 1 + size(*c) + size(*a) + match b {
            Some(e) => size(*e),
            None => 0,
        },
    }
}

/// One step of reduction, with the rules tried in order; `Err` says why no rule applies.
pub open spec fn step(t: Term) -> Result<Term, EvalError>
    decreases t,
{
    match t {
        Term::If(c, a, b) => match *c {
            Term::True => Ok(*a),
            Term::False => match b {
                Some(e) => Ok(*e),
                None => Err(EvalError::NoElse(t)),
            },
            _ => match step(*c) {
                Ok(c2) => Ok(Term::If(Box::new(c2), a, b)),
                Err(err) => Err(err),
            },
        },
        Term::IsZero(a) => if *a is Zero {
            Ok(Term::True)
        } else if is_numeric(*a) {
            Ok(Term::False)
        } else {
            match step(*a) {
                Ok(a2) => Ok(Term::IsZero(Box::new(a2))),
                Err(err) => Err(err),
            }
        },
        Term::Pred(a) => if *a is Zero {
            Ok(Term::Zero)
        } else if is_numeric(*a) {
            Ok(pred_of(*a))
        } else {
            match step(*a) {
                Ok(a2) => Ok(Term::Pred(Box::new(a2))),
                Err(err) => Err(err),
            }
        },
        Term::Succ(a) => match step(*a) {
            Ok(a2) => Ok(Term::Succ(Box::new(a2))),
            Err(_) => Err(EvalError::NoRule(t)),
        },
        _ => Err(EvalError::NoRule(t)),
    }
}

/// The numeral one below `Succ(n)`: `n`.
pub open spec fn pred_of(t: Term) -> Term {
    match t {
        Term::Succ(n) => *n,
        _ => t,
    }
}

/// Every step makes the term strictly smaller, so reduction always terminates.
pub proof fn lemma_step_shrinks(t: Term)
    ensures
        size(t) >= 1,
        step(t) is Ok ==> size(step(t)->Ok_0) < size(t),
    decreases t,
{
    match t {
        Term::If(c, a, b) => {
            lemma_step_shrinks(*c);
        },
        Term::IsZero(a) => {
            lemma_step_shrinks(*a);
        },
        Term::Pred(a) => {
            lemma_step_shrinks(*a);
        },
        Term::Succ(a) => {
            lemma_step_shrinks(*a);
        },
        _ => {},
    }
}

/// The result of stepping until no rule applies.
pub open spec fn normal_form(t: Term) -> Term
    decreases size(t),
{
    match step(t) {
        Ok(t2) => {
            proof {
                lemma_step_shrinks(t);
            }
            normal_form(t2)
        },
        Err(_) => t,
    }
}

/// How evaluation of a term that takes no step ends: the term itself when it is a value;
/// otherwise the term, reported as missing an else-branch or as having no rule.
pub open spec fn finish(nf: Term) -> Result<Term, EvalError> {
    if is_value(nf) {
        Ok(nf)
    } else {
        match step(nf) {
            Err(EvalError::NoElse(_)) => Err(EvalError::NoElse(nf)),
            _ => Err(EvalError::NoRule(nf)),
        }
    }
}

/// What evaluation of `t` reports: its normal form when that is a value, else `NoElse`
/// or `NoRule` with the term on which reduction stopped.
pub open spec fn evaluated(t: Term) -> Result<Term, EvalError> {
    finish(normal_form(t))
}

/// Big-step evaluation: evaluate the subterm in evaluation position to its normal form,
/// then combine. Where no rule applies the rebuilt term is returned as it stands.
pub open spec fn big_step(t: Term) -> Term
    decreases t,
{
    match t {
        Term::If(c, a, b) => {
            let v = big_step(*c);
            if v is True {
                big_step(*a)
            } else if v is False {
                match b {
                    Some(e) => big_step(*e),
                    None => Term::If(Box::new(v), a, b),
                }
            } else {
                Term::If(Box::new(v), a, b)
            }
        },
        Term::IsZero(a) => {
            let v = big_step(*a);
            if v is Zero {
                Term::True
            } else if is_numeric(v) {
                Term::False
            } else {
                Term::IsZero(Box::new(v))
            }
        },
        Term::Pred(a) => {
            let v = big_step(*a);
            if is_numeric(v) {
                pred_of(v)
            } else {
                Term::Pred(Box::new(v))
            }
        },
        Term::Succ(a) => Term::Succ(Box::new(big_step(*a))),
        _ => t,
    }
}

/// Decides whether `t` is a numeral.
pub fn is_numeric_val(t: &Term) -> (r: bool)
    ensures
        r == is_numeric(*t),
    decreases t,
{
    match t {
        Term::Zero => true,
        Term::Succ(a) => is_numeric_val(a),
        _ => false,
    }
}

/// Decides whether `t` is a value (a boolean literal or a numeral).
pub fn is_val(t: &Term) -> (r: bool)
    ensures
        r == is_value(*t),
{
    match t {
        Term::True | Term::False => true,
        _ => is_numeric_val(t),
    }
}

/// One step of call-by-value reduction.
pub fn eval1(term: Term) -> (r: Result<Term, EvalError>)
    ensures
        r == step(term),
    decreases term,
{
    match term {
        Term::If(c, a, b) => match *c {
            Term::True => Ok(*a),
            Term::False => match b {
                Some(e) => Ok(*e),
                None => Err(EvalError::NoElse(Term::If(Box::new(Term::False), a, None))),
            },
            c1 => match eval1(c1) {
                Ok(c2) => Ok(Term::If(Box::new(c2), a, b)),
                Err(err) => Err(err),
            },
        },
        Term::IsZero(a) => {
            if is_numeric_val(&a) {
                match *a {
                    Term::Zero => Ok(Term::True),
                    _ => Ok(Term::False),
                }
            } else {
                match eval1(*a) {
                    Ok(a2) => Ok(Term::IsZero(Box::new(a2))),
                    Err(err) => Err(err),
                }
            }
        },
        Term::Pred(a) => {
            if is_numeric_val(&a) {
                match *a {
                    Term::Succ(n) => Ok(*n),
                    other => Ok(other),
                }
            } else {
                match eval1(*a) {
                    Ok(a2) => Ok(Term::Pred(Box::new(a2))),
                    Err(err) => Err(err),
                }
            }
        },
        Term::Succ(a) => {
            let whole = Term::Succ(Box::new((*a).clone()));
            match eval1(*a) {
                Ok(a2) => Ok(Term::Succ(Box::new(a2))),
                Err(_) => Err(EvalError::NoRule(whole)),
            }
        },
        other => Err(EvalError::NoRule(other)),
    }
}

fn report(t: Term) -> (r: Result<Term, EvalError>)
    ensures
        r == finish(t),
{
    if is_val(&t) {
        Ok(t)
    } else {
        match eval1(t.clone()) {
            Err(EvalError::NoElse(_)) => Err(EvalError::NoElse(t)),
            _ => Err(EvalError::NoRule(t)),
        }
    }
}

/// Reduces `term` step by step until no rule applies. Returns the value reached, or
/// `NoElse`/`NoRule` with the stuck term.
pub fn eval(term: Term) -> (r: Result<Term, EvalError>)
    ensures
        r == evaluated(term),
{
    let mut t = term;
    loop
        invariant
            normal_form(t) == normal_form(term),
        decreases size(t),
    {
        match eval1(t.clone()) {
            Ok(t2) => {
                proof {
                    lemma_step_shrinks(t);
                }
                t = t2;
            },
            Err(_) => {
                return report(t);
            },
        }
    }
}

/// Big-step evaluation: evaluates the subterms in evaluation position to their normal
/// forms and combines them. It reports the same result as [`eval`] on every term.
pub fn big_eval(term: Term) -> (r: Result<Term, EvalError>)
    ensures
        r == evaluated(term),
{
    let v = big_eval_term(term);
    proof {
        lemma_big_step_agrees(term);
    }
    report(v)
}

fn big_eval_term(term: Term) -> (r: Term)
    ensures
        r == big_step(term),
    decreases term,
{
    match term {
        Term::If(c, a, b) => {
            let v = big_eval_term(*c);
            match v {
                Term::True => big_eval_term(*a),
                Term::False => match b {
                    Some(e) => big_eval_term(*e),
                    None => Term::If(Box::new(Term::False), a, None),
                },
                v1 => Term::If(Box::new(v1), a, b),
            }
        },
        Term::IsZero(a) => {
            let v = big_eval_term(*a);
            if is_numeric_val(&v) {
                match v {
                    Term::Zero => Term::True,
                    _ => Term::False,
                }
            } else {
                Term::IsZero(Box::new(v))
            }
        },
        Term::Pred(a) => {
            let v = big_eval_term(*a);
            if is_numeric_val(&v) {
                match v {
                    Term::Succ(n) => *n,
                    other => other,
                }
            } else {
                Term::Pred(Box::new(v))
            }
        },
        Term::Succ(a) => Term::Succ(Box::new(big_eval_term(*a))),
        other => other,
    }
}

/// Values take no step.
pub proof fn lemma_value_is_normal(t: Term)
    requires
        is_value(t),
    ensures
        step(t) is Err,
    decreases t,
{
    if let Term::Succ(a) = t {
        lemma_value_is_normal(*a);
    }
}

/// What [`normal_form`] returns takes no step.
pub proof fn lemma_normal_form_is_normal(t: Term)
    ensures
        step(normal_form(t)) is Err,
    decreases size(t),
{
    if let Ok(t2) = step(t) {
        lemma_step_shrinks(t);
        lemma_normal_form_is_normal(t2);
    }
}

proof fn lemma_if_context(c: Term, a: Box<Term>, b: Option<Box<Term>>)
    ensures
        normal_form(Term::If(Box::new(c), a, b)) == normal_form(
            Term::If(Box::new(normal_form(c)), a, b),
        ),
    decreases size(c),
{
    if let Ok(c2) = step(c) {
        lemma_step_shrinks(c);
        lemma_step_shrinks(Term::If(Box::new(c), a, b));
        lemma_if_context(c2, a, b);
    }
}

proof fn lemma_is_zero_context(a: Term)
    ensures
        normal_form(Term::IsZero(Box::new(a))) == normal_form(
            Term::IsZero(Box::new(normal_form(a))),
        ),
    decreases size(a),
{
    if let Ok(a2) = step(a) {
        if is_numeric(a) {
            lemma_value_is_normal(a);
        }
        lemma_step_shrinks(a);
        lemma_step_shrinks(Term::IsZero(Box::new(a)));
        lemma_is_zero_context(a2);
    }
}

proof fn lemma_pred_context(a: Term)
    ensures
        normal_form(Term::Pred(Box::new(a))) == normal_form(Term::Pred(Box::new(normal_form(a)))),
    decreases size(a),
{
    if let Ok(a2) = step(a) {
        if is_numeric(a) {
            lemma_value_is_normal(a);
        }
        lemma_step_shrinks(a);
        lemma_step_shrinks(Term::Pred(Box::new(a)));
        lemma_pred_context(a2);
    }
}

proof fn lemma_succ_context(a: Term)
    ensures
        normal_form(Term::Succ(Box::new(a))) == normal_form(Term::Succ(Box::new(normal_form(a)))),
    decreases size(a),
{
    if let Ok(a2) = step(a) {
        lemma_step_shrinks(a);
        lemma_step_shrinks(Term::Succ(Box::new(a)));
        lemma_succ_context(a2);
    }
}

/// The big-step evaluator and the small-step evaluator agree on every term
/// (every term of this language terminates).
pub proof fn lemma_big_step_agrees(t: Term)
    ensures
        big_step(t) == normal_form(t),
    decreases t,
{
    match t {
        Term::If(c, a, b) => {
            lemma_big_step_agrees(*c);
            lemma_if_context(*c, a, b);
            lemma_normal_form_is_normal(*c);
            let v = normal_form(*c);
            let tv = Term::If(Box::new(v), a, b);
            if v is True {
                lemma_big_step_agrees(*a);
                assert(step(tv) == Ok::<Term, EvalError>(*a));
            } else if v is False {
                if let Some(e) = b {
                    lemma_big_step_agrees(*e);
                    assert(step(tv) == Ok::<Term, EvalError>(*e));
                } else {
                    assert(step(tv) is Err);
                }
            } else {
                assert(step(tv) is Err);
            }
            assert(normal_form(t) == normal_form(tv));
        },
        Term::IsZero(a) => {
            lemma_big_step_agrees(*a);
            lemma_is_zero_context(*a);
            lemma_normal_form_is_normal(*a);
            let v = normal_form(*a);
            let tv = Term::IsZero(Box::new(v));
            if v is Zero {
                assert(step(tv) == Ok::<Term, EvalError>(Term::True));
                assert(normal_form(Term::True) == Term::True);
            } else if is_numeric(v) {
                assert(step(tv) == Ok::<Term, EvalError>(Term::False));
                assert(normal_form(Term::False) == Term::False);
            } else {
                assert(step(tv) is Err);
            }
        },
        Term::Pred(a) => {
            lemma_big_step_agrees(*a);
            lemma_pred_context(*a);
            lemma_normal_form_is_normal(*a);
            let v = normal_form(*a);
            let tv = Term::Pred(Box::new(v));
            if v is Zero {
                assert(step(tv) == Ok::<Term, EvalError>(Term::Zero));
                assert(normal_form(Term::Zero) == Term::Zero);
            } else if is_numeric(v) {
                lemma_value_is_normal(pred_of(v));
                assert(step(tv) == Ok::<Term, EvalError>(pred_of(v)));
                assert(normal_form(pred_of(v)) == pred_of(v));
            } else {
                assert(step(tv) is Err);
            }
        },
        Term::Succ(a) => {
            lemma_big_step_agrees(*a);
            lemma_succ_context(*a);
            lemma_normal_form_is_normal(*a);
        },
        _ => {},
    }
}

/// Evaluation is deterministic and stable: evaluating its own result changes nothing,
/// and the value or stuck term it reports is that of its normal form.
pub proof fn lemma_eval_idempotent(t: Term)
    ensures
        normal_form(normal_form(t)) == normal_form(t),
        evaluated(normal_form(t)) == evaluated(t),
{
    lemma_normal_form_is_normal(t);
}

} // verus!
