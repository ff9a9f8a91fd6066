use tapl::arith::Term::{False, If, IsZero, Pred, Succ, True, Zero};
use tapl::arith::{big_eval, eval, eval1, is_val, EvalError, Term};

fn bx(t: Term) -> Box<Term> {
    Box::new(t)
}

#[test]
fn eval_test() {
    assert_eq!(eval(Zero), Ok(Zero));
    assert_eq!(eval(True), Ok(True));
    assert_eq!(eval(False), Ok(False));
    assert_eq!(eval(IsZero(Box::new(Zero))), Ok(True));
    assert_eq!(eval(Pred(Box::new(Zero))), Ok(Zero));
    assert_eq!(eval(Succ(Box::new(Zero))), Ok(Succ(Box::new(Zero))));
    assert_eq!(eval(Pred(Box::new(Succ(Box::new(Zero))))), Ok(Zero));
    assert_eq!(eval(If(Box::new(True), Box::new(Pred(Box::new(Zero))), Option::from(Box::new(Succ(Box::new(Pred(Box::new(Zero)))))))), Ok(Zero));
    assert_eq!(eval(If(Box::new(False), Box::new(Pred(Box::new(Zero))), Option::from(Box::new(Succ(Box::new(Pred(Box::new(Zero)))))))), Ok(Succ(Box::new(Zero))));
}

#[test]
fn big_eval_test() {
    assert_eq!(big_eval(Zero), Ok(Zero));
    assert_eq!(big_eval(True), Ok(True));
    assert_eq!(big_eval(False), Ok(False));
    assert_eq!(big_eval(IsZero(Box::new(Zero))), Ok(True));
    assert_eq!(big_eval(Pred(Box::new(Zero))), Ok(Zero));
    assert_eq!(big_eval(Succ(Box::new(Zero))), Ok(Succ(Box::new(Zero))));
    assert_eq!(big_eval(Pred(Box::new(Succ(Box::new(Zero))))), Ok(Zero));
    assert_eq!(big_eval(If(Box::new(True), Box::new(Pred(Box::new(Zero))), Option::from(Box::new(Succ(Box::new(Pred(Box::new(Zero)))))))), Ok(Zero));
    assert_eq!(big_eval(If(Box::new(False), Box::new(Pred(Box::new(Zero))), Option::from(Box::new(Succ(Box::new(Pred(Box::new(Zero)))))))), Ok(Succ(Box::new(Zero))));
}

#[test]
fn eval_agrees_with_big_eval_on_samples() {
    let samples = vec![
        IsZero(bx(Succ(bx(Pred(bx(Succ(bx(Zero))))))))
        , If(bx(IsZero(bx(Zero))), bx(Succ(bx(Zero))), None)
        , If(bx(False), bx(Zero), None)
        , Succ(bx(True))
        , Pred(bx(If(bx(True), bx(Succ(bx(Succ(bx(Zero))))), Some(bx(Zero)))))
        , If(bx(Zero), bx(True), Some(bx(False)))
        , IsZero(bx(IsZero(bx(Zero))))
    ];
    for t in samples {
        assert_eq!(eval(t.clone()), big_eval(t));
    }
}

#[test]
fn eval_reports_missing_else() {
    let t = If(bx(IsZero(bx(Succ(bx(Zero))))), bx(Zero), None);
    let stuck = If(bx(False), bx(Zero), None);
    assert_eq!(eval(t.clone()), Err(EvalError::NoElse(stuck.clone())));
    assert_eq!(big_eval(t), Err(EvalError::NoElse(stuck.clone())));
    assert!(!is_val(&stuck));
    assert!(matches!(eval1(stuck), Err(EvalError::NoElse(_))));
}

#[test]
fn eval_reports_stuck_term() {
    let t = Succ(bx(True));
    assert_eq!(eval(t.clone()), Err(EvalError::NoRule(t.clone())));
    assert_eq!(big_eval(t.clone()), Err(EvalError::NoRule(t.clone())));
    assert!(!is_val(&t));
    assert_eq!(eval1(t.clone()), Err(EvalError::NoRule(t)));
    let u = If(bx(Zero), bx(True), Some(bx(False)));
    assert_eq!(eval(u.clone()), Err(EvalError::NoRule(u)));
}

#[test]
fn succ_of_term_without_else_has_no_rule() {
    let t = Succ(bx(If(bx(False), bx(Zero), None)));
    assert_eq!(eval1(t.clone()), Err(EvalError::NoRule(t)));
}

#[test]
fn step_rules_for_numerals() {
    assert!(matches!(eval1(IsZero(bx(Succ(bx(Zero))))), Ok(False)));
    assert!(matches!(eval1(Zero), Err(EvalError::NoRule(Zero))));
    assert_eq!(eval(Succ(bx(Pred(bx(Succ(bx(Succ(bx(Zero))))))))), Ok(Succ(bx(Succ(bx(Zero))))));
    assert_eq!(eval1(Succ(bx(If(bx(True), bx(Zero), Some(bx(Zero)))))), Ok(Succ(bx(Zero))));
    assert!(is_val(&Succ(bx(Succ(bx(Zero))))));
}

#[test]
fn eval_is_idempotent_on_sample() {
    let t = If(bx(IsZero(bx(Pred(bx(Succ(bx(Zero))))))), bx(Succ(bx(Zero))), Some(bx(Zero)));
    let once = eval(t).unwrap();
    assert_eq!(eval(once.clone()), Ok(once));
}
