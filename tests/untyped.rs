use tapl::untyped::eval;
use tapl::untyped::parser::{Lexer, Parser};

fn run(src: &str) -> String {
    let mut lex = Lexer::new(src);
    assert!(lex.lex_input());
    let mut parser = Parser::new(lex.result);
    let out = parser.parse();
    eval(&out.unwrap(), &parser.ctx, 1000).unwrap().to_nameless_string()
}

#[test]
fn lib_it_works() {
    assert_eq!(2 + 2, 4);
}

#[test]
fn untyped_eval_test() {
    assert_eq!(run("(λ x. (λ y. y) x) (λ x. x)"), "(λ.0)");
    assert_eq!(run("(λ x. (x x)) (λ x. x)"), "(λ.0)");
    assert_eq!(run("((λ x.(λ y. (y x))) (λ x. x)) (λ x.(λ y. (y x)))"), "(λ.(0 (λ.0)))");
}

#[test]
fn unbound_variable_is_rejected() {
    let mut lex = Lexer::new("λ x. y");
    assert!(lex.lex_input());
    let mut parser = Parser::new(lex.result);
    assert!(parser.parse().is_none());
}

#[test]
fn unknown_character_is_rejected() {
    let mut lex = Lexer::new("λ x. x # x");
    assert!(!lex.lex_input());
    assert!(lex.result.is_empty());
}

#[test]
fn divergent_term_runs_out_of_steps() {
    let mut lex = Lexer::new("(λ x. x x) (λ x. x x)");
    assert!(lex.lex_input());
    let mut parser = Parser::new(lex.result);
    let t = parser.parse().unwrap();
    assert!(matches!(eval(&t, &parser.ctx, 50), Err(tapl::untyped::EvalError::OutOfSteps(_))));
}

#[test]
fn application_is_left_associative() {
    let mut lex = tapl::untyped::parser::Lexer::new("λ a. λ b. λ c. a b c");
    assert!(lex.lex_input());
    let mut parser = Parser::new(lex.result);
    let t = parser.parse().unwrap();
    assert_eq!(t.to_nameless_string(), "(λ.(λ.(λ.((2 1) 0))))");
}
