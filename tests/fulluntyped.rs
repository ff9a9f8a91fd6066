use tapl::fulluntyped::builtin::{mult_term, plus_term, prd_term, sub_term, suc_term};
use tapl::fulluntyped::evaluator::{eval, eval1};
use tapl::fulluntyped::lexer::{get_keywords, Lexer, Token};
use tapl::fulluntyped::parser::Parser;
use tapl::fulluntyped::syntax::{
    is_val, shift, subst, term_subst_top, Context, EvalError, Term,
};

fn bx(t: Term) -> Box<Term> {
    Box::new(t)
}

fn var(i: isize, n: isize) -> Term {
    Term::TmVar(i, n)
}

fn lam(x: &str, b: Term) -> Term {
    Term::TmAbs(x.to_string(), bx(b))
}

fn app(f: Term, a: Term) -> Term {
    Term::TmApp(bx(f), bx(a))
}

fn parse(src: &str) -> (Term, Context) {
    let mut lex = Lexer::new(src);
    assert!(lex.lex_input());
    let mut parser = Parser::new(lex.result);
    let t = parser.parse().unwrap();
    (t, parser.ctx)
}

fn run(src: &str) -> Term {
    let (t, ctx) = parse(src);
    eval(&t, &ctx, 10_000).unwrap()
}

#[test]
fn shift_by_zero_is_identity() {
    let t = lam("x", app(var(0, 1), var(3, 1)));
    assert_eq!(shift(0, &t), t);
}

#[test]
fn shift_moves_free_variables_only() {
    let t = lam("x", app(var(0, 1), var(3, 1)));
    assert_eq!(shift(2, &t), lam("x", app(var(0, 3), var(5, 3))));
    assert_eq!(shift(-1, &var(2, 3)), var(1, 2));
}

#[test]
fn shifts_compose() {
    let t = lam("x", app(var(0, 1), app(var(1, 1), var(4, 1))));
    assert_eq!(shift(2, &shift(3, &t)), shift(5, &t));
}

#[test]
fn subst_replaces_target_and_shifts_under_binders() {
    let s = var(7, 9);
    let t = app(var(0, 1), lam("y", var(1, 2)));
    assert_eq!(subst(0, &s, &t), app(var(7, 9), lam("y", var(8, 10))));
}

#[test]
fn subst_top_of_closed_terms_is_closed() {
    let body = app(var(0, 1), lam("y", app(var(1, 2), var(0, 2))));
    let v = lam("z", var(0, 1));
    let r = term_subst_top(&v, &body);
    assert_eq!(r, app(lam("z", var(0, 1)), lam("y", app(lam("z", var(0, 2)), var(0, 1)))));
}

#[test]
fn beta_reduces_application_of_abstraction_to_value() {
    let t = app(lam("x", var(0, 1)), Term::True);
    assert!(matches!(eval1(&t), Ok(Term::True)));
}

#[test]
fn argument_is_reduced_before_beta() {
    let t = app(lam("x", var(0, 1)), Term::IsZero(bx(Term::Zero)));
    assert_eq!(eval1(&t).ok().unwrap(), app(lam("x", var(0, 1)), Term::True));
}

#[test]
fn arithmetic_in_the_lambda_language() {
    assert_eq!(run("iszero zero"), Term::True);
    assert_eq!(run("pred (succ zero)"), Term::Zero);
    assert_eq!(run("if true then (pred zero) else (succ (pred zero))"), Term::Zero);
    assert_eq!(run("if false then (pred zero) else (succ (pred zero))"), Term::Succ(bx(Term::Zero)));
    assert_eq!(run("(λ x. if x then zero else (succ zero)) false"), Term::Succ(bx(Term::Zero)));
    assert_eq!(run("42"), Term::Number(42));
}

#[test]
fn stuck_terms_are_reported() {
    let (t, ctx) = parse("succ true");
    let stuck = Term::Succ(bx(Term::True));
    assert!(matches!(eval(&t, &ctx, 100), Err(EvalError::NoRule(ref x)) if *x == stuck));
    assert!(!is_val(&stuck));
    assert!(matches!(eval1(&stuck), Err(EvalError::NoRule(ref x)) if *x == stuck));
    let (t, ctx) = parse("if iszero (succ zero) then zero");
    let no_else = Term::If(bx(Term::False), bx(Term::Zero), None);
    assert!(matches!(eval(&t, &ctx, 100), Err(EvalError::NoElse(ref x)) if *x == no_else));
    let (t, ctx) = parse("succ (if false then zero)");
    let whole = Term::Succ(bx(no_else));
    assert!(matches!(eval(&t, &ctx, 100), Err(EvalError::NoRule(ref x)) if *x == whole));
}

#[test]
fn evaluation_is_repeatable_and_budget_independent() {
    let (t, ctx) = parse("(λ x. λ y. y x) (λ x. x) (λ x. λ y. y x)");
    let a = eval(&t, &ctx, 100).unwrap();
    let b = eval(&t, &ctx, 100).unwrap();
    let c = eval(&t, &ctx, 100_000).unwrap();
    assert_eq!(a, b);
    assert_eq!(a, c);
    assert_eq!(a.to_nameless_string(), "(λ.(0 (λ.0)))");
}

#[test]
fn budget_exhaustion_is_reported() {
    let (t, ctx) = parse("(λ x. x x) (λ x. x x)");
    assert!(matches!(eval(&t, &ctx, 10), Err(EvalError::OutOfSteps(_))));
    let (t, ctx) = parse("(λ x. x) true");
    assert!(matches!(eval(&t, &ctx, 0), Err(EvalError::OutOfSteps(_))));
    assert_eq!(eval(&t, &ctx, 1).unwrap(), Term::True);
}

#[test]
fn index_overflow_is_reported() {
    let t = app(lam("x", var(0, 1)), lam("y", var(0, isize::MAX)));
    assert!(matches!(eval1(&t), Err(EvalError::IndexOverflow(_))));
    assert!(matches!(eval(&t, &Context::new(), 10), Err(EvalError::IndexOverflow(_))));
}

#[test]
fn builtins_are_closed_church_operations() {
    assert_eq!(suc_term().to_nameless_string(), "(λ.(λ.(λ.(1 ((2 1) 0)))))");
    assert_eq!(plus_term().to_nameless_string(), "(λ.(λ.(λ.(λ.((3 1) ((2 1) 0))))))");
    assert_eq!(mult_term().to_nameless_string(), "(λ.(λ.(λ.(2 (1 0)))))");
    assert_eq!(
        prd_term().to_nameless_string(),
        "(λ.(λ.(λ.(((2 (λ.(λ.(0 (1 3))))) (λ.1)) (λ.0)))))"
    );
    assert_eq!(
        sub_term().to_nameless_string(),
        "(λ.(λ.((0 (λ.(λ.(λ.(((2 (λ.(λ.(0 (1 3))))) (λ.1)) (λ.0)))))) 1)))"
    );
}

#[test]
fn church_addition_runs() {
    // two + one, applied to succ and zero
    let (t, ctx) = parse("+ (λ f. λ x. f (f x)) (λ f. λ x. f x) (λ n. succ n) zero");
    let r = eval(&t, &ctx, 10_000).unwrap();
    assert_eq!(r, Term::Succ(bx(Term::Succ(bx(Term::Succ(bx(Term::Zero)))))));
}

#[test]
fn lexer_recognises_keywords_numbers_and_symbols() {
    let mut lex = Lexer::new("if iszero 12 then λ x. x + * -");
    assert!(lex.lex_input());
    assert_eq!(
        lex.result,
        vec![
            Token::If,
            Token::IsZero,
            Token::Number(12),
            Token::Then,
            Token::Lambda,
            Token::Var("x".to_string()),
            Token::Dot,
            Token::Var("x".to_string()),
            Token::Plus,
            Token::Mult,
            Token::Sub,
        ]
    );
    assert_eq!(get_keywords().len(), 9);
}

#[test]
fn lexer_rejects_oversized_number() {
    let mut lex = Lexer::new("99999999999999999999999");
    assert!(!lex.lex_input());
    assert!(lex.result.is_empty());
}

#[test]
fn context_names_and_indices() {
    let ctx = Context::new();
    let (ctx, x) = ctx.pick_fresh_name("x");
    let (ctx, x2) = ctx.pick_fresh_name("x");
    let (ctx, y) = ctx.pick_fresh_name("y");
    assert_eq!(x, "x");
    assert_eq!(x2, "x'");
    assert_eq!(y, "y");
    assert_eq!(ctx.len(), 3);
    assert_eq!(ctx.name_to_index("y"), Some(0));
    assert_eq!(ctx.name_to_index("x'"), Some(1));
    assert_eq!(ctx.name_to_index("x"), Some(2));
    assert_eq!(ctx.name_to_index("z"), None);
    assert_eq!(ctx.index_to_name(1), Some("x'".to_string()));
    assert_eq!(ctx.index_to_name(3), None);
    assert_eq!(ctx.index_to_name(-1), None);
}

#[test]
fn parser_resolves_indices() {
    let (t, _) = parse("λ x. λ y. x y");
    assert_eq!(t, lam("x", lam("y", app(var(1, 2), var(0, 2)))));
    let mut lex = Lexer::new("if true then zero else");
    assert!(lex.lex_input());
    let mut parser = Parser::new(lex.result);
    assert!(parser.parse_if_then_expr().is_none());
}

#[test]
fn shadowed_name_resolves_to_innermost_binder() {
    let (t, _) = parse("λ x. λ x. x");
    assert_eq!(t, lam("x", lam("x'", var(0, 2))));
    let ctx = Context::new().bind("x").bind("y").bind("x");
    assert_eq!(ctx.name_to_index("x"), Some(0));
    assert_eq!(ctx.name_to_index("y"), Some(1));
}

#[test]
fn empty_input() {
    let mut lex = Lexer::new("");
    assert!(lex.lex_input());
    assert!(lex.result.is_empty());
    let mut parser = Parser::new(lex.result);
    assert!(parser.parse().is_none());
}

#[test]
fn nameless_form_of_other_constructs() {
    let t = Term::If(bx(Term::IsZero(bx(Term::Number(7)))), bx(Term::Pred(bx(var(-2, 0)))), None);
    assert_eq!(t.to_nameless_string(), "(if (iszero 7) then (pred -2))");
    let u = Term::If(bx(Term::True), bx(Term::Succ(bx(Term::Zero))), Some(bx(Term::False)));
    assert_eq!(u.to_nameless_string(), "(if true then (succ zero) else false)");
}

#[test]
fn parser_reads_conditionals_with_optional_else() {
    let mut p = Parser::new(vec![Token::If, Token::True, Token::Then, Token::Zero, Token::Else, Token::Number(1)]);
    assert_eq!(p.parse_if_then_expr(), Some(Term::If(bx(Term::True), bx(Term::Zero), Some(bx(Term::Number(1))))));
    let mut q = Parser::new(vec![Token::If, Token::False, Token::Then, Token::Zero]);
    assert_eq!(q.parse_if_then_expr(), Some(Term::If(bx(Term::False), bx(Term::Zero), None)));
}
