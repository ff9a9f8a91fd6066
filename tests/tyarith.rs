use tapl::tyarith::Term::{False, If, IsZero, Pred, Succ, True, Zero};
use tapl::tyarith::{type_check, typing, TyError, Type};

#[test]
fn lib_eval_test() {
    assert_eq!(typing(Zero), Ok(Type::Nat));
    assert_eq!(typing(True), Ok(Type::Bool));
    assert_eq!(typing(False), Ok(Type::Bool));
    assert_eq!(typing(IsZero(Box::new(Zero))), Ok(Type::Bool));
    assert_eq!(typing(Pred(Box::new(Zero))), Ok(Type::Nat));
    assert_eq!(typing(Succ(Box::new(Zero))), Ok(Type::Nat));
    assert_eq!(typing(Pred(Box::new(Succ(Box::new(Zero))))), Ok(Type::Nat));
    assert_eq!(typing(If(Box::new(True), Box::new(Pred(Box::new(Zero))), Option::from(Box::new(Succ(Box::new(Pred(Box::new(Zero)))))))), Ok(Type::Nat));
    assert_eq!(typing(If(Box::new(False), Box::new(Pred(Box::new(Zero))), Option::from(Box::new(Succ(Box::new(Pred(Box::new(Zero)))))))), Ok(Type::Nat));
}

#[test]
fn type_errors() {
    assert_eq!(type_check(Succ(Box::new(True))), Err(TyError::TypingError));
    assert_eq!(type_check(IsZero(Box::new(False))), Err(TyError::TypingError));
    assert_eq!(type_check(If(Box::new(Zero), Box::new(True), None)), Err(TyError::TypingError));
    assert_eq!(type_check(If(Box::new(True), Box::new(True), Some(Box::new(Zero)))), Err(TyError::TypingError));
    assert_eq!(type_check(If(Box::new(True), Box::new(Zero), None)), Err(TyError::TypingError));
    assert_eq!(typing(IsZero(Box::new(True))), Err(TyError::TypingError));
}

#[test]
fn preservation_on_sample() {
    let t = If(Box::new(IsZero(Box::new(Zero))), Box::new(Pred(Box::new(Succ(Box::new(Zero))))), Some(Box::new(Zero)));
    let ty = type_check(t.clone());
    let next = tapl::arith::eval1(t).ok().unwrap();
    assert_eq!(type_check(next), ty);
}

#[test]
fn well_typed_terms_evaluate_to_values() {
    let t = If(Box::new(IsZero(Box::new(Pred(Box::new(Succ(Box::new(Zero))))))), Box::new(Succ(Box::new(Zero))), Some(Box::new(Zero)));
    assert_eq!(type_check(t.clone()), Ok(Type::Nat));
    assert_eq!(tapl::tyarith::eval(t), Ok(Succ(Box::new(Zero))));
}
