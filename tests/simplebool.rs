use tapl::simplebool::parser::Token::{Bool, Colon, Dot, Else, False, If, LParen, Lambda, RParen, Then, True, Var};
use tapl::simplebool::parser::{Lexer, Parser};
use tapl::simplebool::{type_of, Context, ContextTerm, Term, Type, TypeError};

fn arr(a: Type, b: Type) -> Type {
    Type::TyArr(Box::new(a), Box::new(b))
}

fn parse(src: &str) -> Term {
    let mut lex = Lexer::new(src);
    assert!(lex.lex_input());
    let mut parser = Parser::new(lex.result);
    parser.parse().unwrap()
}

#[test]
fn it_works() {
    assert_eq!(2 + 2, 4);
}

#[test]
fn type_check() {
    let out = parse("if true then false else (λ x:Bool. x)");
    assert_eq!(type_of(&out, &Context::new()), Err(TypeError::TyErr));
}

#[test]
fn diverging_branches_are_a_type_error() {
    let t = Term::TmIf(
        Box::new(Term::TmTrue),
        Box::new(Term::TmFalse),
        Box::new(Term::TmAbs("x".to_string(), Type::TyBool, Box::new(Term::TmVar(0, 1)))),
    );
    assert_eq!(type_of(&t, &Context::new()), Err(TypeError::TyErr));
}

#[test]
fn typing_rules() {
    let id = parse("λ x:Bool. x");
    assert_eq!(type_of(&id, &Context::new()), Ok(arr(Type::TyBool, Type::TyBool)));
    let applied = parse("(λ x:Bool. x) true");
    assert_eq!(type_of(&applied, &Context::new()), Ok(Type::TyBool));
    let k = parse("λ x:Bool. λ y:Bool. if x then y else false");
    assert_eq!(
        type_of(&k, &Context::new()),
        Ok(arr(Type::TyBool, arr(Type::TyBool, Type::TyBool)))
    );
    let bad_app = parse("true false");
    assert_eq!(type_of(&bad_app, &Context::new()), Err(TypeError::TyErr));
    let bad_arg = parse("(λ x:Bool. x) (λ y:Bool. y)");
    assert_eq!(type_of(&bad_arg, &Context::new()), Err(TypeError::TyErr));
    let bad_cond = parse("if (λ x:Bool. x) then true else false");
    assert_eq!(type_of(&bad_cond, &Context::new()), Err(TypeError::TyErr));
}

#[test]
fn variables_take_their_declared_type() {
    let (ctx, _) = Context::new().pick_fresh_name("f", arr(Type::TyBool, Type::TyBool));
    let (ctx, _) = ctx.pick_fresh_name("b", Type::TyBool);
    assert_eq!(ctx.get_type(1), Some(arr(Type::TyBool, Type::TyBool)));
    assert_eq!(ctx.get_type(2), None);
    let t = Term::TmApp(Box::new(Term::TmVar(1, 2)), Box::new(Term::TmVar(0, 2)));
    assert_eq!(type_of(&t, &ctx), Ok(Type::TyBool));
    assert_eq!(type_of(&Term::TmVar(5, 2), &ctx), Err(TypeError::TyErr));
    assert_eq!(ctx.name_to_index("f"), Some(1));
    assert_eq!(ctx.index_to_name(0), Some("b".to_string()));
    assert_eq!(ctx.len(), 2);
}

#[test]
fn display_with_fresh_names() {
    let t = parse("λ x:Bool. λ x:Bool. if x then true else false");
    let ctx = Context::new();
    assert_eq!(
        ContextTerm::new(&ctx, &t).to_text(),
        Some("(λ x: Bool. (λ x': Bool. (if x' true false)))".to_string())
    );
    assert_eq!(arr(Type::TyBool, arr(Type::TyBool, Type::TyBool)).to_text(), "(Bool -> (Bool -> Bool))");
    assert_eq!(ContextTerm::new(&ctx, &Term::TmVar(0, 0)).to_text(), None);
}

#[test]
fn malformed_input_is_rejected() {
    let mut lex = Lexer::new("λ x:Bool. 1");
    assert!(!lex.lex_input());
    let mut lex = Lexer::new("λ x. x");
    assert!(lex.lex_input());
    let mut parser = Parser::new(lex.result);
    assert!(parser.parse().is_none());
}

#[test]
fn parser_reads_conditional_with_abstraction() {
    let tokens = vec![If, True, Then, False, Else, LParen, Lambda, Var("x".to_string()), Colon, Bool, Dot, Var("x".to_string()), RParen];
    let mut p = Parser::new(tokens);
    let t = p.parse().unwrap();
    assert_eq!(
        ContextTerm::new(&Context::new(), &t).to_text(),
        Some("(if true false (λ x: Bool. x))".to_string())
    );
    let mut q = Parser::new(vec![If, True, Then, False, Else, True]);
    assert!(q.parse_if_then_expr().is_some());
    let mut r = Parser::new(vec![If, True, Then, False]);
    assert!(r.parse_if_then_expr().is_none());
}
