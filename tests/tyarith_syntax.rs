use tapl::tyarith::parser::{get_keywords, Lexer, Parser, Token};
use tapl::tyarith::Term::{If, IsZero, Pred, Succ, True, Zero};
use tapl::tyarith::{eval, type_check, Type};

fn parse(src: &str) -> tapl::tyarith::Term {
    let mut lex = Lexer::new(src);
    assert!(lex.lex_input());
    let mut parser = Parser::new(lex.result);
    parser.expr().unwrap()
}

#[test]
fn lexer_drops_parentheses() {
    let mut lex = Lexer::new("if (iszero zero) then succ zero");
    assert!(lex.lex_input());
    assert_eq!(lex.result, vec![Token::If, Token::IsZero, Token::Zero, Token::Then, Token::Succ, Token::Zero]);
    assert_eq!(get_keywords().len(), 9);
}

#[test]
fn lexer_rejects_unknown_words() {
    let mut lex = Lexer::new("succ banana");
    assert!(!lex.lex_input());
    assert!(lex.result.is_empty());
}

#[test]
fn parse_type_and_evaluate() {
    let t = parse("if iszero (pred (succ zero)) then succ zero else zero");
    assert_eq!(
        t,
        If(Box::new(IsZero(Box::new(Pred(Box::new(Succ(Box::new(Zero))))))), Box::new(Succ(Box::new(Zero))), Some(Box::new(Zero)))
    );
    assert_eq!(type_check(t.clone()), Ok(Type::Nat));
    assert_eq!(eval(t), Ok(Succ(Box::new(Zero))));
    assert_eq!(parse("if true then zero"), If(Box::new(True), Box::new(Zero), None));
}

#[test]
fn parser_rejects_incomplete_input() {
    let mut lex = Lexer::new("succ");
    assert!(lex.lex_input());
    let mut parser = Parser::new(lex.result);
    assert!(parser.expr().is_none());
    let mut parser = Parser::new(vec![Token::Then]);
    assert!(parser.parse_if_then_expr().is_none());
    assert_eq!(parser.next_token(), Some(Token::Then));
    assert_eq!(parser.next_token(), None);
}

#[test]
fn parser_reads_whole_expressions() {
    let mut p = Parser::new(vec![Token::Succ, Token::Pred, Token::Zero]);
    assert_eq!(p.expr(), Some(Succ(Box::new(Pred(Box::new(Zero))))));
    assert_eq!(p.next_token(), None);
    let mut p = Parser::new(vec![Token::If, Token::True, Token::Then, Token::Zero, Token::Else, Token::Succ, Token::Zero]);
    assert_eq!(p.parse_if_then_expr(), Some(If(Box::new(True), Box::new(Zero), Some(Box::new(Succ(Box::new(Zero)))))));
    let mut q = Parser::new(vec![Token::If, Token::True, Token::Then, Token::Zero]);
    assert_eq!(q.parse_if_then_expr(), Some(If(Box::new(True), Box::new(Zero), None)));
}
