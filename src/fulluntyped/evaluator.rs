//! Call-by-value small-step reduction and a budgeted evaluator.
use vstd::prelude::*;

use crate::fulluntyped::syntax::{
    checked_subst_top, is_numeric, is_numeric_val, is_val, is_value, subst_top, subst_top_ok,
    Context, EvalError, Term,
};

verus! {

/// The numeral one below `Succ(n)`: `n`.
pub open spec fn pred_of(t: Term) -> Term {
    match t {
        Term::Succ(n) => *n,
        _ => t,
    }
}

/// One step of call-by-value reduction, the rules tried in this order:
/// beta (`App(Abs, value)`), the argument of an application whose function is a value,
/// the function of an application, then the rules for `If`, `IsZero`, `Pred`, `Succ`.
/// `Err` says why no rule applies.
pub open spec fn step(t: Term) -> Result<Term, EvalError>
    decreases t,
{
    match t {
        Term::TmApp(f, a) => if is_value(*f) {
            if is_value(*a) {
                match *f {
                    Term::TmAbs(_, body) => if subst_top_ok(*a, *body) {
                        Ok(subst_top(*a, *body))
                    } else {
                        Err(EvalError::IndexOverflow(t))
                    },
                    _ => Err(EvalError::NoRule(t)),
                }
            } else {
                match step(*a) {
                    Ok(a2) => Ok(Term::TmApp(f, Box::new(a2))),
                    Err(err) => Err(err),
                }
            }
        } else {
            match step(*f) {
                Ok(f2) => Ok(Term::TmApp(Box::new(f2), a)),
                Err(err) => Err(err),
            }
        },
        Term::If(c, a, b) => match *c {
            Term::True => Ok(*a),
            Term::False => match b {
                Some(e) => Ok(*e),
                None => Err(EvalError::NoElse(t)),
            },
            _ => match step(*c) {
                Ok(c2) => Ok(Term::If(Box::new(c2), a, b)),
                Err(err) => Err(err),
            },
        },
        Term::IsZero(a) => if *a is Zero {
            Ok(Term::True)
        } else if is_numeric(*a) {
            Ok(Term::False)
        } else {
            match step(*a) {
                Ok(a2) => Ok(Term::IsZero(Box::new(a2))),
                Err(err) => Err(err),
            }
        },
        Term::Pred(a) => if *a is Zero {
            Ok(Term::Zero)
        } else if is_numeric(*a) {
            Ok(pred_of(*a))
        } else {
            match step(*a) {
                Ok(a2) => Ok(Term::Pred(Box::new(a2))),
                Err(err) => Err(err),
            }
        },
        Term::Succ(a) => match step(*a) {
            Ok(a2) => Ok(Term::Succ(Box::new(a2))),
            Err(EvalError::IndexOverflow(x)) => Err(EvalError::IndexOverflow(x)),
            Err(_) => Err(EvalError::NoRule(t)),
        },
        _ => Err(EvalError::NoRule(t)),
    }
}

/// Steps `t` at most `fuel` times. `Ok` holds the value reached. A term that is not a
/// value and takes no step is reported as `NoElse` or `NoRule` with that term;
/// `OutOfSteps` holds the term reached when the budget ran out while a step was still
/// possible; `IndexOverflow` passes through.
pub open spec fn run(t: Term, fuel: nat) -> Result<Term, EvalError>
    decreases fuel,
{
    match step(t) {
        Ok(t2) => if fuel == 0 {
            Err(EvalError::OutOfSteps(t))
        } else {
            run(t2, (fuel - 1) as nat)
        },
        Err(EvalError::IndexOverflow(x)) => Err(EvalError::IndexOverflow(x)),
        Err(EvalError::NoElse(_)) => if is_value(t) {
            Ok(t)
        } else {
            Err(EvalError::NoElse(t))
        },
        Err(_) => if is_value(t) {
            Ok(t)
        } else {
            Err(EvalError::NoRule(t))
        },
    }
}

/// One step of call-by-value reduction.
pub fn eval1(t: &Term) -> (r: Result<Term, EvalError>)
    ensures
        r == step(*t),
    decreases t,
{
    match t {
        Term::TmApp(f, a) => {
            if is_val(f) {
                if is_val(a) {
                    match &**f {
                        Term::TmAbs(_, body) => match checked_subst_top(a, body) {
                            Some(r) => Ok(r),
                            None => Err(EvalError::IndexOverflow(t.clone())),
                        },
                        _ => Err(EvalError::NoRule(t.clone())),
                    }
                } else {
                    match eval1(a) {
                        Ok(a2) => Ok(Term::TmApp(Box::new((**f).clone()), Box::new(a2))),
                        Err(err) => Err(err),
                    }
                }
            } else {
                match eval1(f) {
                    Ok(f2) => Ok(Term::TmApp(Box::new(f2), Box::new((**a).clone()))),
                    Err(err) => Err(err),
                }
            }
        },
        Term::If(c, a, b) => match &**c {
            Term::True => Ok((**a).clone()),
            Term::False => match b {
                Some(e) => Ok((**e).clone()),
                None => Err(EvalError::NoElse(t.clone())),
            },
            _ => match eval1(c) {
                Ok(c2) => {
                    let b2 = match b {
                        Some(e) => Some(Box::new((**e).clone())),
                        None => None,
                    };
                    Ok(Term::If(Box::new(c2), Box::new((**a).clone()), b2))
                },
                Err(err) => Err(err),
            },
        },
        Term::IsZero(a) => {
            if is_numeric_val(a) {
                match &**a {
                    Term::Zero => Ok(Term::True),
                    _ => Ok(Term::False),
                }
            } else {
                match eval1(a) {
                    Ok(a2) => Ok(Term::IsZero(Box::new(a2))),
                    Err(err) => Err(err),
                }
            }
        },
        Term::Pred(a) => {
            if is_numeric_val(a) {
                match &**a {
                    Term::Succ(n) => Ok((**n).clone()),
                    _ => Ok(Term::Zero),
                }
            } else {
                match eval1(a) {
                    Ok(a2) => Ok(Term::Pred(Box::new(a2))),
                    Err(err) => Err(err),
                }
            }
        },
        Term::Succ(a) => match eval1(a) {
            Ok(a2) => Ok(Term::Succ(Box::new(a2))),
            Err(EvalError::IndexOverflow(x)) => Err(EvalError::IndexOverflow(x)),
            Err(_) => Err(EvalError::NoRule(t.clone())),
        },
        _ => Err(EvalError::NoRule(t.clone())),
    }
}

/// Reduces `t` until no rule applies, taking at most `max_steps` steps.
/// `ctx` is the context `t` was parsed in; reduction does not consult it.
/// `Ok` holds the value reached; `NoElse` and `NoRule` report a stuck term,
/// `OutOfSteps` an exhausted budget.
pub fn eval(t: &Term, ctx: &Context, max_steps: usize) -> (r: Result<Term, EvalError>)
    ensures
        r == run(*t, max_steps as nat),
{
    let mut cur = t.clone();
    let mut fuel = max_steps;
    loop
        invariant
            run(cur, fuel as nat) == run(*t, max_steps as nat),
        decreases fuel,
    {
        match eval1(&cur) {
            Ok(next) => {
                if fuel == 0 {
                    return Err(EvalError::OutOfSteps(cur));
                }
                cur = next;
                fuel = fuel - 1;
            },
            Err(EvalError::IndexOverflow(x)) => {
                return Err(EvalError::IndexOverflow(x));
            },
            Err(EvalError::NoElse(_)) => {
                if is_val(&cur) {
                    return Ok(cur);
                }
                return Err(EvalError::NoElse(cur));
            },
            Err(_) => {
                if is_val(&cur) {
                    return Ok(cur);
                }
                return Err(EvalError::NoRule(cur));
            },
        }
    }
}

/// Determinism: once evaluation of `t` ends within a budget, with a value or a stuck
/// term, every larger budget gives the very same result.
pub proof fn lemma_run_deterministic(t: Term, n: nat, m: nat)
    requires
        !(run(t, n) is Err && run(t, n)->Err_0 is OutOfSteps),
        n <= m,
    ensures
        run(t, m) == run(t, n),
    decreases n,
{
    if let Ok(t2) = step(t) {
        lemma_run_deterministic(t2, (n - 1) as nat, (m - 1) as nat);
    }
}

} // verus!
