//! Church-encoded arithmetic, as closed terms that the parser offers as built-ins.
use vstd::prelude::*;

use crate::fulluntyped::syntax::{lemma_well_scoped_mono, nameless_form, well_scoped, Term};

verus! {

fn var(idx: isize, depth: isize) -> (r: Term)
    ensures
        r == Term::TmVar(idx, depth),
{
    Term::TmVar(idx, depth)
}

fn app(f: Term, a: Term) -> (r: Term)
    ensures
        r == Term::TmApp(Box::new(f), Box::new(a)),
{
    Term::TmApp(Box::new(f), Box::new(a))
}

fn lam(name: &str, body: Term) -> (r: Term)
    ensures
        r matches Term::TmAbs(x, b) && x@ == name@ && *b == body,
{
    Term::TmAbs(name.to_owned(), Box::new(body))
}

/// `t` is an abstraction whose binder is named `x`.
pub open spec fn abs_named(t: Term, x: Seq<char>) -> bool {
    t is TmAbs && t->TmAbs_0@ == x
}

/// The body of an abstraction.
pub open spec fn abs_body(t: Term) -> Term {
    *t->TmAbs_1
}

/// The application `f a`.
pub open spec fn ap(f: Term, a: Term) -> Term {
    Term::TmApp(Box::new(f), Box::new(a))
}

/// `t` is `λn.λf.λx. f (n f x)`, the variables at depth 3.
pub open spec fn is_suc(t: Term) -> bool {
    &&& abs_named(t, "n"@)
    &&& abs_named(abs_body(t), "f"@)
    &&& abs_named(abs_body(abs_body(t)), "x"@)
    &&& abs_body(abs_body(abs_body(t))) == ap(
        Term::TmVar(1, 3),
        ap(ap(Term::TmVar(2, 3), Term::TmVar(1, 3)), Term::TmVar(0, 3)),
    )
}

/// `t` is `λn.λf.λx. n (λg.λh. h (g f)) (λu. x) (λu. u)`.
pub open spec fn is_prd(t: Term) -> bool {
    let e = abs_body(abs_body(abs_body(t)));
    &&& abs_named(t, "n"@)
    &&& abs_named(abs_body(t), "f"@)
    &&& abs_named(abs_body(abs_body(t)), "x"@)
    &&& e is TmApp
    &&& *e->TmApp_0 is TmApp
    &&& *(*e->TmApp_0)->TmApp_0 is TmApp
    &&& *(*(*e->TmApp_0)->TmApp_0)->TmApp_0 == Term::TmVar(2, 3)
    &&& abs_named(*(*(*e->TmApp_0)->TmApp_0)->TmApp_1, "g"@)
    &&& abs_named(abs_body(*(*(*e->TmApp_0)->TmApp_0)->TmApp_1), "h"@)
    &&& abs_body(abs_body(*(*(*e->TmApp_0)->TmApp_0)->TmApp_1)) == ap(
        Term::TmVar(0, 5),
        ap(Term::TmVar(1, 5), Term::TmVar(3, 5)),
    )
    &&& abs_named(*(*e->TmApp_0)->TmApp_1, "u"@)
    &&& abs_body(*(*e->TmApp_0)->TmApp_1) == Term::TmVar(1, 4)
    &&& abs_named(*e->TmApp_1, "u"@)
    &&& abs_body(*e->TmApp_1) == Term::TmVar(0, 4)
}

/// `t` is `λm.λn.λf.λx. m f (n f x)`, the variables at depth 4.
pub open spec fn is_plus(t: Term) -> bool {
    &&& abs_named(t, "m"@)
    &&& abs_named(abs_body(t), "n"@)
    &&& abs_named(abs_body(abs_body(t)), "f"@)
    &&& abs_named(abs_body(abs_body(abs_body(t))), "x"@)
    &&& abs_body(abs_body(abs_body(abs_body(t)))) == ap(
        ap(Term::TmVar(3, 4), Term::TmVar(1, 4)),
        ap(ap(Term::TmVar(2, 4), Term::TmVar(1, 4)), Term::TmVar(0, 4)),
    )
}

/// `t` is `λm.λn.λf. m (n f)`, the variables at depth 3.
pub open spec fn is_mult(t: Term) -> bool {
    &&& abs_named(t, "m"@)
    &&& abs_named(abs_body(t), "n"@)
    &&& abs_named(abs_body(abs_body(t)), "f"@)
    &&& abs_body(abs_body(abs_body(t))) == ap(
        Term::TmVar(2, 3),
        ap(Term::TmVar(1, 3), Term::TmVar(0, 3)),
    )
}

/// `t` is `λm.λn. n prd m`, with `prd` the predecessor term.
pub open spec fn is_sub(t: Term) -> bool {
    let e = abs_body(abs_body(t));
    &&& abs_named(t, "m"@)
    &&& abs_named(abs_body(t), "n"@)
    &&& e is TmApp
    &&& *e->TmApp_0 is TmApp
    &&& *(*e->TmApp_0)->TmApp_0 == Term::TmVar(0, 2)
    &&& is_prd(*(*e->TmApp_0)->TmApp_1)
    &&& *e->TmApp_1 == Term::TmVar(1, 2)
}

/// The nameless form of [`plus_term`].
pub open spec fn plus_form() -> Seq<char> {
    "(λ.(λ.(λ.(λ.((3 1) ((2 1) 0))))))"@
}

/// The nameless form of [`mult_term`].
pub open spec fn mult_form() -> Seq<char> {
    "(λ.(λ.(λ.(2 (1 0)))))"@
}

/// The nameless form of [`sub_term`].
pub open spec fn sub_form() -> Seq<char> {
    "(λ.(λ.((0 (λ.(λ.(λ.(((2 (λ.(λ.(0 (1 3))))) (λ.1)) (λ.0)))))) 1)))"@
}

/// Successor of Church numerals, `λn.λf.λx. f (n f x)`.
pub fn suc_term() -> (r: Term)
    ensures
        is_suc(r),
        well_scoped(r, 0),
        nameless_form(r) == "(λ.(λ.(λ.(1 ((2 1) 0)))))"@,
{
    proof {
        reveal_with_fuel(well_scoped, 8);
        reveal_with_fuel(nameless_form, 8);
        reveal_strlit("(λ.(λ.(λ.(1 ((2 1) 0)))))");
    }
    let r = lam("n", lam("f", lam("x", app(var(1, 3), app(app(var(2, 3), var(1, 3)), var(0, 3))))));
    assert(nameless_form(r) =~= "(λ.(λ.(λ.(1 ((2 1) 0)))))"@);
    r
}

/// Predecessor of Church numerals, `λn.λf.λx. n (λg.λh. h (g f)) (λu. x) (λu. u)`.
pub fn prd_term() -> (r: Term)
    ensures
        is_prd(r),
        well_scoped(r, 0),
        nameless_form(r) == "(λ.(λ.(λ.(((2 (λ.(λ.(0 (1 3))))) (λ.1)) (λ.0)))))"@,
{
    proof {
        reveal_with_fuel(well_scoped, 8);
        reveal_with_fuel(nameless_form, 10);
        reveal_strlit("(λ.(λ.(λ.(((2 (λ.(λ.(0 (1 3))))) (λ.1)) (λ.0)))))");
    }
    let step = lam("g", lam("h", app(var(0, 5), app(var(1, 5), var(3, 5)))));
    let konst = lam("u", var(1, 4));
    let ident = lam("u", var(0, 4));
    assert(well_scoped(step, 3));
    assert(well_scoped(konst, 3));
    assert(well_scoped(ident, 3));
    proof {
        reveal_strlit("(λ.(λ.(0 (1 3))))");
        reveal_strlit("(λ.1)");
        reveal_strlit("(λ.0)");
        reveal_strlit("(2 (λ.(λ.(0 (1 3)))))");
        reveal_strlit("((2 (λ.(λ.(0 (1 3))))) (λ.1))");
        reveal_strlit("(((2 (λ.(λ.(0 (1 3))))) (λ.1)) (λ.0))");
        reveal_strlit("(λ.(((2 (λ.(λ.(0 (1 3))))) (λ.1)) (λ.0)))");
        reveal_strlit("(λ.(λ.(((2 (λ.(λ.(0 (1 3))))) (λ.1)) (λ.0))))");
    }
    assert(nameless_form(step) =~= "(λ.(λ.(0 (1 3))))"@);
    assert(nameless_form(konst) =~= "(λ.1)"@);
    assert(nameless_form(ident) =~= "(λ.0)"@);
    let a1 = app(var(2, 3), step);
    assert(nameless_form(a1) =~= "(2 (λ.(λ.(0 (1 3)))))"@);
    let a2 = app(a1, konst);
    assert(nameless_form(a2) =~= "((2 (λ.(λ.(0 (1 3))))) (λ.1))"@);
    let a3 = app(a2, ident);
    assert(nameless_form(a3) =~= "(((2 (λ.(λ.(0 (1 3))))) (λ.1)) (λ.0))"@);
    let l1 = lam("x", a3);
    assert(nameless_form(l1) =~= "(λ.(((2 (λ.(λ.(0 (1 3))))) (λ.1)) (λ.0)))"@);
    let l2 = lam("f", l1);
    assert(nameless_form(l2) =~= "(λ.(λ.(((2 (λ.(λ.(0 (1 3))))) (λ.1)) (λ.0))))"@);
    let r = lam("n", l2);
    assert(nameless_form(r) =~= "(λ.(λ.(λ.(((2 (λ.(λ.(0 (1 3))))) (λ.1)) (λ.0)))))"@);
    r
}

/// Addition of Church numerals, `λm.λn.λf.λx. m f (n f x)`.
pub fn plus_term() -> (r: Term)
    ensures
        is_plus(r),
        well_scoped(r, 0),
        nameless_form(r) == plus_form(),
{
    proof {
        reveal_with_fuel(well_scoped, 8);
        reveal_with_fuel(nameless_form, 10);
        reveal_strlit("(λ.(λ.(λ.(λ.((3 1) ((2 1) 0))))))");
    }
    let r = lam(
        "m",
        lam(
            "n",
            lam(
                "f",
                lam("x", app(app(var(3, 4), var(1, 4)), app(app(var(2, 4), var(1, 4)), var(0, 4)))),
            ),
        ),
    );
    assert(nameless_form(r) =~= "(λ.(λ.(λ.(λ.((3 1) ((2 1) 0))))))"@);
    r
}

/// Multiplication of Church numerals, `λm.λn.λf. m (n f)`.
pub fn mult_term() -> (r: Term)
    ensures
        is_mult(r),
        well_scoped(r, 0),
        nameless_form(r) == mult_form(),
{
    proof {
        reveal_with_fuel(well_scoped, 8);
        reveal_with_fuel(nameless_form, 10);
        reveal_strlit("(λ.(λ.(λ.(2 (1 0)))))");
    }
    let r = lam("m", lam("n", lam("f", app(var(2, 3), app(var(1, 3), var(0, 3))))));
    assert(nameless_form(r) =~= "(λ.(λ.(λ.(2 (1 0)))))"@);
    r
}

/// Subtraction of Church numerals, `λm.λn. n prd m`, with `prd` the predecessor.
pub fn sub_term() -> (r: Term)
    ensures
        is_sub(r),
        well_scoped(r, 0),
        nameless_form(r) == sub_form(),
{
    proof {
        reveal_with_fuel(well_scoped, 8);
        reveal_with_fuel(nameless_form, 10);
        reveal_strlit("(λ.(λ.((0 (λ.(λ.(λ.(((2 (λ.(λ.(0 (1 3))))) (λ.1)) (λ.0)))))) 1)))");
    }
    let prd = prd_term();
    proof {
        lemma_well_scoped_mono(prd, 0, 2);
    }
    proof {
        reveal_strlit("(λ.(λ.(λ.(((2 (λ.(λ.(0 (1 3))))) (λ.1)) (λ.0)))))");
        reveal_strlit("(0 (λ.(λ.(λ.(((2 (λ.(λ.(0 (1 3))))) (λ.1)) (λ.0))))))");
        reveal_strlit("((0 (λ.(λ.(λ.(((2 (λ.(λ.(0 (1 3))))) (λ.1)) (λ.0)))))) 1)");
        reveal_strlit("(λ.((0 (λ.(λ.(λ.(((2 (λ.(λ.(0 (1 3))))) (λ.1)) (λ.0)))))) 1))");
    }
    let b1 = app(var(0, 2), prd);
    assert(nameless_form(b1) =~= "(0 (λ.(λ.(λ.(((2 (λ.(λ.(0 (1 3))))) (λ.1)) (λ.0))))))"@);
    let b2 = app(b1, var(1, 2));
    assert(nameless_form(b2) =~= "((0 (λ.(λ.(λ.(((2 (λ.(λ.(0 (1 3))))) (λ.1)) (λ.0)))))) 1)"@);
    let b3 = lam("n", b2);
    assert(nameless_form(b3) =~= "(λ.((0 (λ.(λ.(λ.(((2 (λ.(λ.(0 (1 3))))) (λ.1)) (λ.0)))))) 1))"@);
    let r = lam("m", b3);
    assert(nameless_form(r) =~= "(λ.(λ.((0 (λ.(λ.(λ.(((2 (λ.(λ.(0 (1 3))))) (λ.1)) (λ.0)))))) 1)))"@);
    r
}

} // verus!
